//! The status and settings one preference set exposes to its host.

use vstd::prelude::*;
use vstd::string::StringExecFns;

verus! {

/// Settings for one preference set's persistence: where its record lives.
pub struct PrefsSettings {
    /// The file path under which the record is stored, for hosts with a
    /// filesystem.
    pub path: String,
    /// The key under which the record is stored, for hosts with a
    /// string-keyed store. It should be unique to the application, so that
    /// applications sharing one store do not collide.
    pub local_storage_key: String,
}

impl PrefsSettings {
    /// The conventional storage places for a preference set: the file
    /// `<package>_prefs.ron` and the store key `<package>::<type>.ron`.
    pub fn for_names(package_name: &str, type_path: &str) -> (r: PrefsSettings)
        ensures
            r.path@ == package_name@ + "_prefs.ron"@,
            r.local_storage_key@ == package_name@ + "::"@ + type_path@ + ".ron"@,
    {
        let mut path = String::from_str(package_name);
        path.append("_prefs.ron");
        let mut key = String::from_str(package_name);
        key.append("::");
        key.append(type_path);
        key.append(".ron");
        PrefsSettings { path, local_storage_key: key }
    }
}

/// The one flag a preference set's host can gate on: whether the startup
/// load has completed and its values stand in the fields.
pub struct PrefsStatus {
    /// `true` once the load's mutation batch has been applied.
    pub loaded: bool,
}

impl Default for PrefsStatus {
    /// The status before any load has completed.
    fn default() -> (r: Self)
        ensures
            !r.loaded,
    {
        PrefsStatus { loaded: false }
    }
}

} // verus!
