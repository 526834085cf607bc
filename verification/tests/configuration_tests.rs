use pkgman::configuration::{
    Configuration, ConfigurationManager, ConfigurationUpdateMode, ConfigurationUpdateUnit,
    UpdateOverride, VersionMode, configuration_update_unit,
};
use pkgman::dependency::{Dependency, Package, PackageList};
use pkgman::errors::ConfigurationManagerError;
use pkgman::provider::DependencyProvider;
use pkgman::version::VersionWrapper;

fn ver(major: u64, minor: u64, patch: u64) -> VersionWrapper {
    VersionWrapper::new(major, minor, patch)
}

fn dep(name: &str, v: VersionWrapper) -> Dependency {
    Dependency::new(name.to_string(), v)
}

fn pkg(name: &str, v: VersionWrapper) -> Package {
    Package::new(
        name.to_string(),
        v,
        "main".to_string(),
        "origin".to_string(),
        "label".to_string(),
        "amd64".to_string(),
        String::new(),
        String::new(),
    )
}

fn list(deps: Vec<Dependency>) -> PackageList {
    PackageList::new(deps)
}

#[test]
fn chain_history_is_append_only_and_age_tracks_it() {
    let chain = Configuration::new(list(vec![dep("a", ver(1, 0, 0))]), "cfg".to_string(), 0);
    let mut inner = chain.inner;
    assert_eq!(inner.age(), 0);
    assert_eq!(inner.vec().len(), 1);

    inner.update(list(vec![dep("a", ver(2, 0, 0))]));
    assert_eq!(inner.age(), 1);
    let history = inner.vec();
    assert_eq!(history.len(), 2);
    // the first entry is untouched
    assert_eq!(history[0].dependencies[0].archive, "a");
    assert_eq!(history[0].dependencies[0].version_wrapper, ver(1, 0, 0));
    assert_eq!(history[1].dependencies[0].version_wrapper, ver(2, 0, 0));
    assert_eq!(inner.age() as usize, history.len() - 1);
}

#[test]
fn duplicate_configuration_is_refused() {
    let mut cm = ConfigurationManager::new();
    cm.insert(Configuration::new(
        list(vec![dep("a", ver(1, 0, 0))]),
        "cfg".to_string(),
        0,
    ))
    .unwrap();
    let r = cm.insert(Configuration::new(
        list(vec![dep("b", ver(1, 0, 0))]),
        "cfg".to_string(),
        0,
    ));
    assert!(matches!(
        r,
        Err(ConfigurationManagerError::DuplicateConfiguration)
    ));
    assert_eq!(cm.configurations.len(), 1);
}

#[test]
fn deleting_an_unknown_configuration_fails() {
    let mut cm = ConfigurationManager::new();
    let r = cm.delete(Configuration::new(
        list(vec![]),
        "ghost".to_string(),
        0,
    ));
    match r {
        Err(ConfigurationManagerError::ConfigurationNotFound(name)) => {
            assert_eq!(name, "ghost");
        }
        _ => panic!("expected the unknown chain to be reported"),
    }
}

#[test]
fn delete_removes_exactly_the_named_chain() {
    let mut cm = ConfigurationManager::new();
    cm.insert(Configuration::new(list(vec![]), "one".to_string(), 0))
        .unwrap();
    cm.insert(Configuration::new(list(vec![]), "two".to_string(), 0))
        .unwrap();
    cm.delete(Configuration::new(list(vec![]), "one".to_string(), 0))
        .unwrap();
    assert_eq!(cm.configurations.len(), 1);
    assert_eq!(cm.configurations[0].archive, "two");
}

#[test]
fn all_update_latest_rewrites_every_member() {
    let mut p = DependencyProvider::new();
    assert!(p.insert(pkg("foo", ver(1, 0, 0)), vec![]));
    assert!(p.insert(pkg("foo", ver(3, 2, 1)), vec![]));
    assert!(p.insert(pkg("bar", ver(2, 0, 0)), vec![]));

    let mut cm = ConfigurationManager::new();
    cm.insert(Configuration::new(
        list(vec![dep("foo", ver(1, 0, 0)), dep("bar", ver(2, 0, 0))]),
        "cfg".to_string(),
        0,
    ))
    .unwrap();
    let new_list = cm
        .update("cfg".to_string(), ConfigurationUpdateMode::AllUpdateLatest, &p)
        .unwrap();
    assert_eq!(new_list.dependencies.len(), 2);
    assert_eq!(new_list.dependencies[0].version_wrapper, ver(3, 2, 1));
    assert_eq!(new_list.dependencies[1].version_wrapper, ver(2, 0, 0));
    // the update appended a new head and aged the chain by one
    assert_eq!(cm.configurations[0].inner.age(), 1);
    assert_eq!(cm.configurations[0].inner.vec().len(), 2);
}

#[test]
fn partial_update_touches_only_the_named_packages() {
    let mut p = DependencyProvider::new();
    assert!(p.insert(pkg("foo", ver(9, 0, 0)), vec![]));

    let unit = ConfigurationUpdateUnit::new();
    let chain = Configuration::new(
        list(vec![dep("foo", ver(1, 0, 0)), dep("bar", ver(2, 0, 0))]),
        "cfg".to_string(),
        0,
    );
    let overrides = vec![
        UpdateOverride {
            archive: "foo".to_string(),
            mode: VersionMode::Latest,
        },
        UpdateOverride {
            archive: "baz".to_string(),
            mode: VersionMode::Specific(ver(5, 5, 5)),
        },
    ];
    let new_list = unit
        .get_new_configuration(
            &chain,
            &ConfigurationUpdateMode::PartialUpdate(overrides),
            &p,
        )
        .unwrap();
    assert_eq!(new_list.dependencies[0].version_wrapper, ver(9, 0, 0));
    // bar has no override and is carried over unchanged
    assert_eq!(new_list.dependencies[1].archive, "bar");
    assert_eq!(new_list.dependencies[1].version_wrapper, ver(2, 0, 0));
}

#[test]
fn partial_update_with_specific_version_pins_it() {
    let p = DependencyProvider::new();
    let unit = configuration_update_unit();
    let chain = Configuration::new(list(vec![dep("foo", ver(1, 0, 0))]), "cfg".to_string(), 0);
    let overrides = vec![UpdateOverride {
        archive: "foo".to_string(),
        mode: VersionMode::Specific(ver(4, 0, 2)),
    }];
    let new_list = unit
        .get_new_configuration(
            &chain,
            &ConfigurationUpdateMode::PartialUpdate(overrides),
            &p,
        )
        .unwrap();
    assert_eq!(new_list.dependencies[0].version_wrapper, ver(4, 0, 2));
}

#[test]
fn update_to_latest_fails_when_the_catalogue_has_no_version() {
    let p = DependencyProvider::new();
    let mut cm = ConfigurationManager::new();
    cm.insert(Configuration::new(
        list(vec![dep("foo", ver(1, 0, 0))]),
        "cfg".to_string(),
        0,
    ))
    .unwrap();
    let r = cm.update("cfg".to_string(), ConfigurationUpdateMode::AllUpdateLatest, &p);
    assert!(matches!(
        r,
        Err(ConfigurationManagerError::ConfigurationUpdateFailed)
    ));
    // nothing was appended
    assert_eq!(cm.configurations[0].inner.age(), 0);
}

#[test]
fn update_of_an_unknown_configuration_fails() {
    let p = DependencyProvider::new();
    let mut cm = ConfigurationManager::new();
    let r = cm.update(
        "ghost".to_string(),
        ConfigurationUpdateMode::AllUpdateLatest,
        &p,
    );
    match r {
        Err(ConfigurationManagerError::ConfigurationNotFound(name)) => {
            assert_eq!(name, "ghost");
        }
        _ => panic!("expected the unknown chain to be reported"),
    }
}
