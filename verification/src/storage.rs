//! The storage resolver: logical storage categories mapped to
//! platform-appropriate directories.
//!
//! The two categories are fixed: settings live in the per-user preference
//! directory, save data in a `saves` subdirectory of the per-user data
//! directory.  Resolution happens once at startup and the resolved
//! directories are immutable for the process's lifetime; opening, creating
//! and reading the files themselves is the surrounding application's I/O.

use vstd::prelude::*;
use vstd::string::StringExecFns;

verus! {

/// A logical storage category.
#[derive(Clone, Copy, Debug, PartialEq, Eq, Structural)]
pub enum Storage {
    Settings,
    Saves,
}

/// The resolved per-user directories.
#[derive(Debug)]
pub struct LocalStorage {
    settings_dir: String,
    saves_dir: String,
}

impl LocalStorage {
    /// The settings directory path.
    pub closed spec fn settings(&self) -> Seq<char> {
        self.settings_dir@
    }

    /// The saves directory path.
    pub closed spec fn saves(&self) -> Seq<char> {
        self.saves_dir@
    }

    /// What a category resolves to.
    pub open spec fn resolve(&self, storage: Storage) -> Seq<char> {
        match storage {
            Storage::Settings => self.settings(),
            Storage::Saves => self.saves(),
        }
    }

    pub fn new(settings_dir: String, saves_dir: String) -> (s: LocalStorage)
        ensures
            s.settings() == settings_dir@,
            s.saves() == saves_dir@,
    {
        LocalStorage { settings_dir, saves_dir }
    }

    /// Build the resolver from the platform's directories: settings in
    /// the preference directory, saves in a `saves` subdirectory of the
    /// data directory.
    pub fn from_platform(preference_dir: String, data_dir: String) -> (s: LocalStorage)
        ensures
            s.settings() == preference_dir@,
            s.saves() == data_dir@ + "/saves"@,
    {
        let mut saves = data_dir;
        saves.append("/saves");
        LocalStorage { settings_dir: preference_dir, saves_dir: saves }
    }

    /// Resolve the platform directories for this application, or `None`
    /// when the platform knows no home for the user — a condition the
    /// application treats as fatal at startup.  Whatever directories the
    /// platform reports, the saves directory is a `saves` subdirectory of
    /// the reported data directory.
    pub fn discover() -> (res: Option<LocalStorage>)
        ensures
            res matches Some(s) ==> exists|d: Seq<char>| s.saves() == #[trigger] (d + "/saves"@),
    {
        match project_dirs() {
            Some(d) => {
                let settings = preference_dir_string(&d);
                let data = data_dir_string(&d);
                let resolved = LocalStorage::from_platform(settings, data);
                proof {
                    assert(resolved.saves() == data@ + "/saves"@);
                }
                Some(resolved)
            },
            None => None,
        }
    }

    /// The directory a category resolves to.
    pub fn dir(&self, storage: Storage) -> (d: &String)
        ensures
            d@ == self.resolve(storage),
    {
        match storage {
            Storage::Settings => &self.settings_dir,
            Storage::Saves => &self.saves_dir,
        }
    }

    /// The full path of a named file under a category's directory.
    pub fn file_path(&self, storage: Storage, file: &str) -> (p: String)
        ensures
            p@ == self.resolve(storage) + "/"@ + file@,
    {
        let mut p = self.dir(storage).clone();
        p.append("/");
        p.append(file);
        proof {
            assert(p@ =~= self.resolve(storage) + "/"@ + file@);
        }
        p
    }

    /// The path of the keyboard preference file.
    pub fn keyboard_pref_path(&self) -> (p: String)
        ensures
            p@ == self.settings() + "/"@ + "keyboard.pref"@,
    {
        self.file_path(Storage::Settings, "keyboard.pref")
    }
}

/// Relies on `directories::ProjectDirs`, carried through opaquely.
#[verifier::external_type_specification]
#[verifier::external_body]
pub struct ExProjectDirs(directories::ProjectDirs);

/// Relies on `directories::ProjectDirs::from`: the directory set of this
/// application, or `None` when no home directory is known.  The result
/// depends on the machine's environment, so nothing is promised of it.
#[verifier::external_body]
fn project_dirs() -> Option<directories::ProjectDirs> {
    directories::ProjectDirs::from("com.github", "gygl", "Centripetal")
}

/// Relies on `directories::ProjectDirs::preference_dir`: the per-user
/// preference directory.  Environment-dependent, so nothing is promised.
#[verifier::external_body]
fn preference_dir_string(d: &directories::ProjectDirs) -> String {
    d.preference_dir().to_string_lossy().into_owned()
}

/// Relies on `directories::ProjectDirs::data_dir`: the per-user data
/// directory.  Environment-dependent, so nothing is promised.
#[verifier::external_body]
fn data_dir_string(d: &directories::ProjectDirs) -> String {
    d.data_dir().to_string_lossy().into_owned()
}

} // verus!
