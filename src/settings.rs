use vstd::prelude::*;

verus! {

/// Key, among the build settings' extra fields, of the missions settings.
pub const MISSION_SETTINGS_KEY: &'static str = "missions";

/// Which files go into a packed addon.
pub struct PackConfig {
    pub include_folders: Vec<String>,
    pub excludes: Vec<String>,
    pub header_extensions: Vec<String>,
}

impl Default for PackConfig {
    fn default() -> (r: Self)
        ensures
            r.include_folders.len() == 0,
            r.excludes.len() == 0,
            r.header_extensions.len() == 0,
    {
        PackConfig { include_folders: Vec::new(), excludes: Vec::new(), header_extensions: Vec::new() }
    }
}

/// The missions settings taken from the build settings.
pub struct MissionSettings {
    /// Name of the generated addon.
    pub addon_name: String,
    /// Maps to create missions for.
    pub maps: Vec<String>,
    /// Mission name.
    pub mission_name: String,
    /// Delay, in seconds, between death and when respawn is allowed.
    pub respawn_delay: usize,
    /// Directory of the composition to add to the missions.
    pub composition: String,
    /// X, Y and Z offset of the composition, as float bit patterns.
    pub composition_offset: (u32, u32, u32),
}

pub fn default_build_path() -> (r: String)
    ensures
        r@ == "build"@,
{
    String::from_str("build")
}

pub fn default_assets_path() -> (r: String)
    ensures
        r@ == "assets"@,
{
    String::from_str("assets")
}

pub fn default_addons_path() -> (r: String)
    ensures
        r@ == "addons"@,
{
    String::from_str("addons")
}

pub fn default_release_path() -> (r: String)
    ensures
        r@ == "release"@,
{
    String::from_str("release")
}

pub fn default_addon_name() -> (r: String)
    ensures
        r@ == "Missions"@,
{
    String::from_str("Missions")
}

pub fn default_mission_name() -> (r: String)
    ensures
        r@ == "ZeusMission"@,
{
    String::from_str("ZeusMission")
}

pub fn default_respawn_delay() -> (r: usize)
    ensures
        r == 2,
{
    2
}

/// The build step that generates the missions addon.
pub struct MissionPlugin;

impl MissionPlugin {
    /// The step's name, which is also its settings key.
    pub fn name(&self) -> (r: String)
        ensures
            r@ == MISSION_SETTINGS_KEY@,
    {
        String::from_str(MISSION_SETTINGS_KEY)
    }
}

} // verus!
