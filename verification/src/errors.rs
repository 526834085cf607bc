//! The error taxonomy: one enum per manager layer and a global error,
//! with total conversions between the layers.

use vstd::prelude::*;
use crate::dependency::Dependency;

verus! {

/// Errors of the low-level package registry.
#[derive(Debug)]
pub enum PackageManagerError {
    PackageInstalled,
    PackageNotFound(String),
    PackageLockFailed,
    PackageInstallFailed,
    PackageUninstallFailed,
    ReadLocalPackageFileError(String),
}

/// Errors of the software lifecycle manager and the resolver.
#[derive(Debug)]
pub enum SoftwareManagerError {
    /// A dependency cycle, reported as the cycle path starting at the
    /// repeated node.
    CircularDependency(Vec<Dependency>),
    /// A package unknown both to the registry and to the information source.
    SoftwareNotFound(Dependency),
    DownloadError(String),
    ParseDependencyError(String),
    ReadLocalSoftwareFileError(String),
    ReadLocalOtherFileError(String),
    SoftwareLockError(String),
    PackageInstalled,
    PackageNotFound(String),
    PackageLockFailed,
    PackageInstallFailed,
    PackageUninstallFailed,
    ReadLocalPackageFileError(String),
}

/// Errors of the configuration chain registry.
#[derive(Debug)]
pub enum ConfigurationManagerError {
    DuplicateConfiguration,
    ConfigurationNotFound(String),
    ConfigurationUpdateFailed,
    ConfigurationLockFailed,
}

/// The top-level error surfaced by the scheduler.
#[derive(Debug)]
pub enum GlobalError {
    CircularDependency(Vec<Dependency>),
    DependencyNotFound(Dependency),
    DownloadError(String),
    InstallDependencyError(String),
    ParseDependencyError(String),
    ReadLocalFileError(String),
    RemoveDependencyError(String),
    SoftwareLockError(String),
    DuplicateConfiguration,
    ConfigurationNotFound(String),
    ConfigurationUpdateFailed,
    ConfigurationLockFailed,
}

/// How a `PackageManagerError` lifts into the software layer.
pub open spec fn software_error_of_package_error(e: PackageManagerError) -> SoftwareManagerError {
    match e {
        PackageManagerError::PackageInstalled => SoftwareManagerError::PackageInstalled,
        PackageManagerError::PackageNotFound(s) => SoftwareManagerError::PackageNotFound(s),
        PackageManagerError::PackageLockFailed => SoftwareManagerError::PackageLockFailed,
        PackageManagerError::PackageInstallFailed => SoftwareManagerError::PackageInstallFailed,
        PackageManagerError::PackageUninstallFailed => SoftwareManagerError::PackageUninstallFailed,
        PackageManagerError::ReadLocalPackageFileError(s) => SoftwareManagerError::ReadLocalPackageFileError(
            s,
        ),
    }
}

impl From<PackageManagerError> for SoftwareManagerError {
    fn from(e: PackageManagerError) -> (r: SoftwareManagerError) {
        match e {
            PackageManagerError::PackageInstalled => SoftwareManagerError::PackageInstalled,
            PackageManagerError::PackageNotFound(s) => SoftwareManagerError::PackageNotFound(s),
            PackageManagerError::PackageLockFailed => SoftwareManagerError::PackageLockFailed,
            PackageManagerError::PackageInstallFailed => SoftwareManagerError::PackageInstallFailed,
            PackageManagerError::PackageUninstallFailed => SoftwareManagerError::PackageUninstallFailed,
            PackageManagerError::ReadLocalPackageFileError(s) => SoftwareManagerError::ReadLocalPackageFileError(
                s,
            ),
        }
    }
}

impl vstd::std_specs::convert::FromSpecImpl<PackageManagerError> for SoftwareManagerError {
    open spec fn obeys_from_spec() -> bool {
        true
    }

    open spec fn from_spec(e: PackageManagerError) -> SoftwareManagerError {
        software_error_of_package_error(e)
    }
}

/// How a `ConfigurationManagerError` lifts into the global error.
pub open spec fn global_error_of_configuration_error(e: ConfigurationManagerError) -> GlobalError {
    match e {
        ConfigurationManagerError::ConfigurationLockFailed => GlobalError::ConfigurationLockFailed,
        ConfigurationManagerError::ConfigurationNotFound(s) => GlobalError::ConfigurationNotFound(
            s,
        ),
        ConfigurationManagerError::ConfigurationUpdateFailed => GlobalError::ConfigurationUpdateFailed,
        ConfigurationManagerError::DuplicateConfiguration => GlobalError::DuplicateConfiguration,
    }
}

impl From<ConfigurationManagerError> for GlobalError {
    fn from(e: ConfigurationManagerError) -> (r: GlobalError) {
        match e {
            ConfigurationManagerError::ConfigurationLockFailed => GlobalError::ConfigurationLockFailed,
            ConfigurationManagerError::ConfigurationNotFound(s) => GlobalError::ConfigurationNotFound(
                s,
            ),
            ConfigurationManagerError::ConfigurationUpdateFailed => GlobalError::ConfigurationUpdateFailed,
            ConfigurationManagerError::DuplicateConfiguration => GlobalError::DuplicateConfiguration,
        }
    }
}

impl vstd::std_specs::convert::FromSpecImpl<ConfigurationManagerError> for GlobalError {
    open spec fn obeys_from_spec() -> bool {
        true
    }

    open spec fn from_spec(e: ConfigurationManagerError) -> GlobalError {
        global_error_of_configuration_error(e)
    }
}

/// The intended correspondence between a software-layer error and its
/// global form. Variants that carry no message are given a fixed one.
pub open spec fn global_matches_software(e: SoftwareManagerError, r: GlobalError) -> bool {
    match e {
        SoftwareManagerError::CircularDependency(l) => r == GlobalError::CircularDependency(l),
        SoftwareManagerError::SoftwareNotFound(d) => r == GlobalError::DependencyNotFound(d),
        SoftwareManagerError::DownloadError(s) => r == GlobalError::DownloadError(s),
        SoftwareManagerError::ParseDependencyError(s) => r == GlobalError::ParseDependencyError(s),
        SoftwareManagerError::ReadLocalSoftwareFileError(s) => r == GlobalError::ReadLocalFileError(
            s,
        ),
        SoftwareManagerError::ReadLocalOtherFileError(s) => r == GlobalError::ReadLocalFileError(s),
        SoftwareManagerError::SoftwareLockError(s) => r == GlobalError::SoftwareLockError(s),
        SoftwareManagerError::PackageInstalled => r matches GlobalError::InstallDependencyError(s)
            && s@ == "package already installed"@,
        SoftwareManagerError::PackageNotFound(s) => r == GlobalError::InstallDependencyError(s),
        SoftwareManagerError::PackageLockFailed => r matches GlobalError::SoftwareLockError(s)
            && s@ == "package lock failed"@,
        SoftwareManagerError::PackageInstallFailed => r matches GlobalError::InstallDependencyError(
            s,
        ) && s@ == "package install failed"@,
        SoftwareManagerError::PackageUninstallFailed => r matches GlobalError::RemoveDependencyError(
            s,
        ) && s@ == "package uninstall failed"@,
        SoftwareManagerError::ReadLocalPackageFileError(s) => r == GlobalError::ReadLocalFileError(
            s,
        ),
    }
}

impl GlobalError {
    /// Lifts a software-layer error into the global taxonomy.
    pub fn from_software(e: SoftwareManagerError) -> (r: GlobalError)
        ensures
            global_matches_software(e, r),
    {
        match e {
            SoftwareManagerError::CircularDependency(l) => GlobalError::CircularDependency(l),
            SoftwareManagerError::SoftwareNotFound(d) => GlobalError::DependencyNotFound(d),
            SoftwareManagerError::DownloadError(s) => GlobalError::DownloadError(s),
            SoftwareManagerError::ParseDependencyError(s) => GlobalError::ParseDependencyError(s),
            SoftwareManagerError::ReadLocalSoftwareFileError(s) => GlobalError::ReadLocalFileError(
                s,
            ),
            SoftwareManagerError::ReadLocalOtherFileError(s) => GlobalError::ReadLocalFileError(s),
            SoftwareManagerError::SoftwareLockError(s) => GlobalError::SoftwareLockError(s),
            SoftwareManagerError::PackageInstalled => GlobalError::InstallDependencyError(
                String::from_str("package already installed"),
            ),
            SoftwareManagerError::PackageNotFound(s) => GlobalError::InstallDependencyError(s),
            SoftwareManagerError::PackageLockFailed => GlobalError::SoftwareLockError(
                String::from_str("package lock failed"),
            ),
            SoftwareManagerError::PackageInstallFailed => GlobalError::InstallDependencyError(
                String::from_str("package install failed"),
            ),
            SoftwareManagerError::PackageUninstallFailed => GlobalError::RemoveDependencyError(
                String::from_str("package uninstall failed"),
            ),
            SoftwareManagerError::ReadLocalPackageFileError(s) => GlobalError::ReadLocalFileError(
                s,
            ),
        }
    }
}

/// The concatenated spelling of a cycle, one `"name-version"` after
/// another, as the diagnostics print it.
pub open spec fn cycle_msg(s: Seq<Dependency>) -> Seq<char>
    decreases s.len(),
{
    if s.len() == 0 {
        Seq::empty()
    } else {
        cycle_msg(s.drop_last()) + crate::dependency::dep_str(
            s.last().archive@,
            s.last().version_wrapper,
        )
    }
}

impl PackageManagerError {
    /// The human-readable message of this error.
    pub fn to_string(&self) -> (r: String)
        ensures
            match self {
                PackageManagerError::PackageInstalled => r@ == "Package already installed"@,
                PackageManagerError::PackageNotFound(s) => r@ == "Package "@ + s@ + " not found"@,
                PackageManagerError::PackageLockFailed => r@ == "Package lock failed"@,
                PackageManagerError::PackageInstallFailed => r@ == "Package install failed"@,
                PackageManagerError::PackageUninstallFailed => r@ == "Package uninstall failed"@,
                PackageManagerError::ReadLocalPackageFileError(s) => r@
                    == "Read local package file error "@ + s@,
            },
    {
        match self {
            PackageManagerError::PackageInstalled => String::from_str(
                "Package already installed",
            ),
            PackageManagerError::PackageNotFound(s) => {
                let mut out = String::from_str("Package ");
                out.append(s.as_str());
                out.append(" not found");
                out
            },
            PackageManagerError::PackageLockFailed => String::from_str("Package lock failed"),
            PackageManagerError::PackageInstallFailed => String::from_str(
                "Package install failed",
            ),
            PackageManagerError::PackageUninstallFailed => String::from_str(
                "Package uninstall failed",
            ),
            PackageManagerError::ReadLocalPackageFileError(s) => {
                let mut out = String::from_str("Read local package file error ");
                out.append(s.as_str());
                out
            },
        }
    }
}

impl SoftwareManagerError {
    /// The human-readable message of this error; a cycle prints its
    /// members back to back.
    pub fn to_string(&self) -> (r: String)
        ensures
            match self {
                SoftwareManagerError::CircularDependency(l) => r@ == cycle_msg(l@),
                SoftwareManagerError::SoftwareNotFound(d) => r@ == "software not found: "@
                    + crate::dependency::dep_str(d.archive@, d.version_wrapper),
                SoftwareManagerError::DownloadError(s) => r@ == "download error: "@ + s@,
                SoftwareManagerError::ParseDependencyError(s) => r@
                    == "parse dependency error: "@ + s@,
                SoftwareManagerError::ReadLocalSoftwareFileError(s) => r@
                    == "read local software file error: "@ + s@,
                SoftwareManagerError::ReadLocalOtherFileError(s) => r@
                    == "read local other file error: "@ + s@,
                SoftwareManagerError::SoftwareLockError(s) => r@ == "software lock error: "@ + s@,
                SoftwareManagerError::PackageInstalled => r@ == "package installed"@,
                SoftwareManagerError::PackageNotFound(s) => r@ == "package not found: "@ + s@,
                SoftwareManagerError::PackageLockFailed => r@ == "package lock failed"@,
                SoftwareManagerError::PackageInstallFailed => r@ == "package install failed"@,
                SoftwareManagerError::PackageUninstallFailed => r@
                    == "package uninstall failed"@,
                SoftwareManagerError::ReadLocalPackageFileError(s) => r@
                    == "read local package file error: "@ + s@,
            },
    {
        match self {
            SoftwareManagerError::CircularDependency(l) => {
                let mut out = String::new();
                let mut i: usize = 0;
                while i < l.len()
                    invariant
                        0 <= i <= l@.len(),
                        out@ == cycle_msg(l@.subrange(0, i as int)),
                    decreases l@.len() - i,
                {
                    let piece = l[i].to_string();
                    out.append(piece.as_str());
                    proof {
                        let t = l@.subrange(0, i + 1);
                        assert(t.drop_last() =~= l@.subrange(0, i as int));
                        assert(t.last() == l@[i as int]);
                    }
                    i = i + 1;
                }
                proof {
                    assert(l@.subrange(0, l@.len() as int) =~= l@);
                }
                out
            },
            SoftwareManagerError::SoftwareNotFound(d) => {
                let mut out = String::from_str("software not found: ");
                let piece = d.to_string();
                out.append(piece.as_str());
                out
            },
            SoftwareManagerError::DownloadError(s) => {
                let mut out = String::from_str("download error: ");
                out.append(s.as_str());
                out
            },
            SoftwareManagerError::ParseDependencyError(s) => {
                let mut out = String::from_str("parse dependency error: ");
                out.append(s.as_str());
                out
            },
            SoftwareManagerError::ReadLocalSoftwareFileError(s) => {
                let mut out = String::from_str("read local software file error: ");
                out.append(s.as_str());
                out
            },
            SoftwareManagerError::ReadLocalOtherFileError(s) => {
                let mut out = String::from_str("read local other file error: ");
                out.append(s.as_str());
                out
            },
            SoftwareManagerError::SoftwareLockError(s) => {
                let mut out = String::from_str("software lock error: ");
                out.append(s.as_str());
                out
            },
            SoftwareManagerError::PackageInstalled => String::from_str("package installed"),
            SoftwareManagerError::PackageNotFound(s) => {
                let mut out = String::from_str("package not found: ");
                out.append(s.as_str());
                out
            },
            SoftwareManagerError::PackageLockFailed => String::from_str("package lock failed"),
            SoftwareManagerError::PackageInstallFailed => String::from_str(
                "package install failed",
            ),
            SoftwareManagerError::PackageUninstallFailed => String::from_str(
                "package uninstall failed",
            ),
            SoftwareManagerError::ReadLocalPackageFileError(s) => {
                let mut out = String::from_str("read local package file error: ");
                out.append(s.as_str());
                out
            },
        }
    }
}

} // verus!
