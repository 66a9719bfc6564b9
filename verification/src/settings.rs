//! The settings that are kept between sessions.

use vstd::prelude::*;

verus! {

/// The settings of the window.
pub struct Settings {
    pub dest_path: String,
    pub concurrent: usize,
    pub max_retries: u32,
    pub verify_checksums: bool,
    pub queue_paused: bool,
    pub light_mode: bool,
    pub auto_theme: bool,
}

impl Default for Settings {
    fn default() -> (s: Self)
        ensures
            s.dest_path@ == "~/Downloads/myrient"@,
            s.concurrent == 4,
            s.max_retries == 3,
            s.verify_checksums,
            s.queue_paused,
            !s.light_mode,
            !s.auto_theme,
    {
        Settings {
            dest_path: "~/Downloads/myrient".to_owned(),
            concurrent: 4,
            max_retries: 3,
            verify_checksums: true,
            queue_paused: true,
            light_mode: false,
            auto_theme: false,
        }
    }
}

/// What the download manager goes by.
pub struct DlSettings {
    pub dest: String,
    pub concurrent: usize,
    pub max_retries: u32,
    pub verify: bool,
    pub paused: bool,
}

impl Settings {
    /// The window is light: as the system is, where that is followed, and else as it was chosen.
    pub open spec fn shows_light(self, os_light: bool) -> bool {
        if self.auto_theme {
            os_light
        } else {
            self.light_mode
        }
    }

    /// What the download manager goes by. `dest` is the destination, expanded.
    pub fn for_downloads(&self, dest: String) -> (d: DlSettings)
        ensures
            d == (DlSettings {
                dest,
                concurrent: self.concurrent,
                max_retries: self.max_retries,
                verify: self.verify_checksums,
                paused: self.queue_paused,
            }),
    {
        DlSettings {
            dest,
            concurrent: self.concurrent,
            max_retries: self.max_retries,
            verify: self.verify_checksums,
            paused: self.queue_paused,
        }
    }

    /// Whether the window is light: as the system is, where that is followed.
    pub fn is_light(&self, os_light: bool) -> (light: bool)
        ensures
            light == self.shows_light(os_light),
    {
        if self.auto_theme {
            os_light
        } else {
            self.light_mode
        }
    }
}

impl DlSettings {
    /// What the download manager goes by before the settings are read.
    pub fn initial(dest: String) -> (d: Self)
        ensures
            d == (DlSettings { dest, concurrent: 4, max_retries: 3, verify: true, paused: true }),
    {
        DlSettings { dest, concurrent: 4, max_retries: 3, verify: true, paused: true }
    }
}

/// The settings of the terminal program.
pub struct PlainSettings {
    pub dest_path: String,
    pub concurrent: usize,
    pub max_retries: u32,
    pub verify_checksums: bool,
    pub queue_paused: bool,
    pub retro_theme: bool,
}

impl Default for PlainSettings {
    fn default() -> (s: Self)
        ensures
            s.dest_path@ == "~/Downloads/myrient"@,
            s.concurrent == 4,
            s.max_retries == 3,
            s.verify_checksums,
            s.queue_paused,
            !s.retro_theme,
    {
        PlainSettings {
            dest_path: "~/Downloads/myrient".to_owned(),
            concurrent: 4,
            max_retries: 3,
            verify_checksums: true,
            queue_paused: true,
            retro_theme: false,
        }
    }
}

/// A window that follows the system has its theme, and one that does not keeps its own whatever the
/// system has.
pub proof fn law_theme(settings: Settings, os_light: bool)
    ensures
        settings.auto_theme ==> settings.shows_light(os_light) == os_light,
        !settings.auto_theme ==> settings.shows_light(os_light) == settings.light_mode,
        !settings.auto_theme ==> settings.shows_light(true) == settings.shows_light(false),
{
}

} // verus!
