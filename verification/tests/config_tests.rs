use aura_lib::config::{default_height, default_icon_size, default_max_results, default_width};
use aura_lib::{AppearanceConfig, Config, LauncherConfig};

#[test]
fn defaults_of_single_settings() {
    assert_eq!(default_max_results(), 10);
    assert_eq!(default_width(), 600);
    assert_eq!(default_height(), 400);
    assert_eq!(default_icon_size(), 48);
}

#[test]
fn default_config() {
    let config = Config::default();
    assert_eq!(config.launcher.max_results, 10);
    assert_eq!(config.launcher.width, 600);
    assert_eq!(config.launcher.height, 400);
    assert_eq!(config.appearance.icon_theme, None);
    assert_eq!(config.appearance.icon_size, 48);

    let launcher = LauncherConfig::default();
    assert_eq!((launcher.max_results, launcher.width, launcher.height), (10, 600, 400));
    let appearance = AppearanceConfig::default();
    assert_eq!((appearance.icon_theme, appearance.icon_size), (None, 48));
}
