use pkgman::configuration::ConfigurationManager;
use pkgman::dependency::{Dependency, Package, PackageList};
use pkgman::package_manager::PackageManager;
use pkgman::provider::DependencyProvider;
use pkgman::scheduler::{Scheduler, scheduler};
use pkgman::software::{Software, SoftwareStatus};
use pkgman::software_manager::SoftwareManager;
use pkgman::version::VersionWrapper;

fn ver(major: u64, minor: u64, patch: u64) -> VersionWrapper {
    VersionWrapper::new(major, minor, patch)
}

fn dep(name: &str, v: VersionWrapper) -> Dependency {
    Dependency::new(name.to_string(), v)
}

fn pkg(name: &str, v: VersionWrapper) -> Package {
    Package::new(
        name.to_string(),
        v,
        "main".to_string(),
        "origin".to_string(),
        "label".to_string(),
        "amd64".to_string(),
        String::new(),
        String::new(),
    )
}

fn provider_with(entries: Vec<(&str, VersionWrapper, Vec<Dependency>)>) -> DependencyProvider {
    let mut p = DependencyProvider::new();
    for (name, v, deps) in entries {
        assert!(p.insert(pkg(name, v), deps));
    }
    p
}

#[test]
fn resolution_matches_versions_exactly() {
    // an available lib-1.0.0 does not satisfy a want for lib-2.0.0
    let p = provider_with(vec![("lib", ver(2, 0, 0), vec![])]);
    let mut sm = SoftwareManager::new();
    sm.insert(Software::new(
        "lib".to_string(),
        ver(1, 0, 0),
        vec![],
        1,
        SoftwareStatus::Available,
    ))
    .unwrap();
    let order = sm.check(&vec![dep("lib", ver(2, 0, 0))], &p).unwrap();
    assert_eq!(order.len(), 1);
    assert_eq!(order[0].version_wrapper, ver(2, 0, 0));
}

#[test]
fn reference_counts_saturate_at_the_ceiling() {
    let mut sm = SoftwareManager::new();
    sm.insert(Software::new(
        "full".to_string(),
        ver(1, 0, 0),
        vec![],
        u32::MAX,
        SoftwareStatus::Available,
    ))
    .unwrap();
    let list = PackageList::new(vec![dep("full", ver(1, 0, 0))]);
    sm.update_reference(&list).unwrap();
    assert_eq!(sm.softwares[0].inner.reference_count, u32::MAX);
}

#[test]
fn collection_skips_an_entry_whose_payload_is_not_in_the_store() {
    let mut sm = SoftwareManager::new();
    let mut pm = PackageManager::new();
    // the entry is collectable, but the store never held its payload
    sm.insert(Software::new(
        "stray".to_string(),
        ver(1, 0, 0),
        vec![],
        0,
        SoftwareStatus::Available,
    ))
    .unwrap();
    sm.garbage_collection(&mut pm).unwrap();
    assert!(matches!(
        sm.softwares[0].inner.status,
        SoftwareStatus::Available
    ));
    // the pass converges: running again changes nothing
    sm.garbage_collection(&mut pm).unwrap();
    assert!(matches!(
        sm.softwares[0].inner.status,
        SoftwareStatus::Available
    ));
    assert_eq!(sm.softwares[0].inner.reference_count, 0);
}

#[test]
fn repeated_bootstrap_extends_the_same_chain() {
    let p = provider_with(vec![("app", ver(1, 0, 0), vec![])]);
    let mut sm = SoftwareManager::new();
    let mut pm = PackageManager::new();
    let mut cm = ConfigurationManager::new();
    let sched: Scheduler = scheduler();

    sched
        .bootstrap(
            "cfg".to_string(),
            vec![dep("app", ver(1, 0, 0))],
            &p,
            &mut sm,
            &mut pm,
            &mut cm,
        )
        .unwrap();
    assert_eq!(cm.configurations.len(), 1);
    assert_eq!(cm.configurations[0].inner().age(), 0);

    sched
        .bootstrap(
            "cfg".to_string(),
            vec![dep("app", ver(1, 0, 0))],
            &p,
            &mut sm,
            &mut pm,
            &mut cm,
        )
        .unwrap();
    // the second run appended to the existing chain and aged it by one
    assert_eq!(cm.configurations.len(), 1);
    assert_eq!(cm.configurations[0].inner().age(), 1);
    assert_eq!(cm.configurations[0].inner().vec().len(), 2);
    // the entry was not reinstalled, only referenced again
    assert_eq!(sm.softwares.len(), 1);
    assert_eq!(sm.softwares[0].inner.reference_count, 2);
}

#[test]
fn a_removed_entry_leaves_room_for_a_fresh_install() {
    let p = provider_with(vec![("a", ver(1, 0, 0), vec![])]);
    let mut sm = SoftwareManager::new();
    let mut pm = PackageManager::new();
    sm.install(&vec![dep("a", ver(1, 0, 0))], &p, &mut pm).unwrap();
    sm.garbage_collection(&mut pm).unwrap();
    assert!(matches!(
        sm.softwares[0].inner.status,
        SoftwareStatus::Removed
    ));
    // reinstalling creates a brand-new entry beside the tombstone
    sm.install(&vec![dep("a", ver(1, 0, 0))], &p, &mut pm).unwrap();
    assert_eq!(sm.softwares.len(), 2);
    assert!(matches!(
        sm.softwares[1].inner.status,
        SoftwareStatus::Available
    ));
}

#[test]
fn installing_a_dependent_adds_a_reference_to_an_existing_dependency() {
    let p = provider_with(vec![
        ("lib", ver(1, 0, 0), vec![]),
        ("app", ver(1, 0, 0), vec![dep("lib", ver(1, 0, 0))]),
    ]);
    let mut sm = SoftwareManager::new();
    let mut pm = PackageManager::new();
    sm.install(&vec![dep("lib", ver(1, 0, 0))], &p, &mut pm).unwrap();
    assert_eq!(sm.softwares[0].inner.reference_count, 0);
    sm.install(&vec![dep("app", ver(1, 0, 0))], &p, &mut pm).unwrap();
    // the freshly installed dependent keeps lib alive
    assert_eq!(sm.softwares[0].inner.reference_count, 1);
    assert_eq!(sm.softwares[1].inner.reference_count, 0);
}

#[test]
fn update_flow_installs_and_references_the_new_head() {
    let p = provider_with(vec![
        ("foo", ver(1, 0, 0), vec![]),
        ("foo", ver(2, 0, 0), vec![]),
    ]);
    let mut sm = SoftwareManager::new();
    let mut pm = PackageManager::new();
    let mut cm = ConfigurationManager::new();
    let sched = Scheduler::new();
    sched
        .bootstrap(
            "cfg".to_string(),
            vec![dep("foo", ver(1, 0, 0))],
            &p,
            &mut sm,
            &mut pm,
            &mut cm,
        )
        .unwrap();

    sched
        .update_dependency(
            "cfg".to_string(),
            pkgman::configuration::ConfigurationUpdateMode::AllUpdateLatest,
            &p,
            &mut sm,
            &mut pm,
            &mut cm,
        )
        .unwrap();
    // the chain aged and its head asks for the newest version
    assert_eq!(cm.configurations[0].inner().age(), 1);
    let history = cm.configurations[0].inner().vec();
    assert_eq!(history[1].dependencies[0].version_wrapper, ver(2, 0, 0));
    // both versions now live side by side, each referenced once
    assert_eq!(sm.softwares.len(), 2);
    assert_eq!(sm.softwares[0].inner.reference_count, 1);
    assert_eq!(sm.softwares[1].inner.reference_count, 1);
    assert_eq!(sm.softwares[1].version, ver(2, 0, 0));
}

#[test]
fn scheduler_collection_sweeps_unreferenced_entries() {
    let p = provider_with(vec![("junk", ver(1, 0, 0), vec![])]);
    let mut sm = SoftwareManager::new();
    let mut pm = PackageManager::new();
    sm.install(&vec![dep("junk", ver(1, 0, 0))], &p, &mut pm).unwrap();
    let sched = Scheduler::new();
    sched.garbage_collection(&mut sm, &mut pm).unwrap();
    assert!(matches!(
        sm.softwares[0].inner.status,
        SoftwareStatus::Removed
    ));
    assert!(!pm.contains(&"junk".to_string(), &ver(1, 0, 0)));
}
