//! Settings the launcher core consumes, with their defaults.

use crate::desktop::{clone_opt, opt_chars};
use vstd::prelude::*;

verus! {

/// Settings of the result list and of the launcher window.
#[derive(Debug)]
pub struct LauncherConfig {
    /// Upper bound on the number of ranked results handed to the caller.
    pub max_results: usize,
    /// Window width in pixels.
    pub width: i32,
    /// Window height in pixels.
    pub height: i32,
}

/// Settings of icon lookup.
#[derive(Debug)]
pub struct AppearanceConfig {
    /// Icon theme to search; `None` leaves the choice to the icon backend.
    pub icon_theme: Option<String>,
    /// Edge length of icons in pixels.
    pub icon_size: u16,
}

/// All settings of the launcher.
#[derive(Debug)]
pub struct Config {
    pub launcher: LauncherConfig,
    pub appearance: AppearanceConfig,
}

/// Number of results shown when the configuration names none.
pub fn default_max_results() -> (n: usize)
    ensures
        n == 10,
{
    10
}

/// Window width used when the configuration names none.
pub fn default_width() -> (w: i32)
    ensures
        w == 600,
{
    600
}

/// Window height used when the configuration names none.
pub fn default_height() -> (h: i32)
    ensures
        h == 400,
{
    400
}

/// Icon size used when the configuration names none.
pub fn default_icon_size() -> (s: u16)
    ensures
        s == 48,
{
    48
}

impl Clone for LauncherConfig {
    fn clone(&self) -> (c: Self)
        ensures
            c == *self,
    {
        LauncherConfig { max_results: self.max_results, width: self.width, height: self.height }
    }
}

impl Clone for AppearanceConfig {
    fn clone(&self) -> (c: Self)
        ensures
            opt_chars(c.icon_theme) == opt_chars(self.icon_theme),
            c.icon_size == self.icon_size,
    {
        AppearanceConfig { icon_theme: clone_opt(&self.icon_theme), icon_size: self.icon_size }
    }
}

impl Clone for Config {
    fn clone(&self) -> (c: Self)
        ensures
            c.launcher == self.launcher,
            opt_chars(c.appearance.icon_theme) == opt_chars(self.appearance.icon_theme),
            c.appearance.icon_size == self.appearance.icon_size,
    {
        Config { launcher: self.launcher.clone(), appearance: self.appearance.clone() }
    }
}

impl Default for LauncherConfig {
    fn default() -> (c: Self)
        ensures
            c.max_results == 10,
            c.width == 600,
            c.height == 400,
    {
        LauncherConfig {
            max_results: default_max_results(),
            width: default_width(),
            height: default_height(),
        }
    }
}

impl Default for AppearanceConfig {
    fn default() -> (c: Self)
        ensures
            c.icon_theme is None,
            c.icon_size == 48,
    {
        AppearanceConfig { icon_theme: None, icon_size: default_icon_size() }
    }
}

impl Default for Config {
    fn default() -> (c: Self)
        ensures
            c.launcher.max_results == 10,
            c.launcher.width == 600,
            c.launcher.height == 400,
            c.appearance.icon_theme is None,
            c.appearance.icon_size == 48,
    {
        Config { launcher: LauncherConfig::default(), appearance: AppearanceConfig::default() }
    }
}

} // verus!
