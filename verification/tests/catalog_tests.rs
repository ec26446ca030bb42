use aura_lib::desktop::DesktopEntryData;
use aura_lib::{scan_applications, DesktopApp};

fn entry(id: &str, name: &str) -> DesktopEntryData {
    DesktopEntryData {
        id: id.to_string(),
        no_display: false,
        hidden: false,
        entry_type: Some("Application".to_string()),
        name: Some(name.to_string()),
        exec_command: Some(format!("{} %U", id)),
        icon: Some(id.to_string()),
        keywords: vec!["one".to_string(), "two".to_string()],
        comment: Some(format!("About {}", name)),
        path: format!("/usr/share/applications/{}.desktop", id),
    }
}

fn names(apps: &[DesktopApp]) -> Vec<String> {
    apps.iter().map(|a| a.name.clone()).collect()
}

#[test]
fn test_scan_applications() {
    let apps = scan_applications(&[
        entry("firefox", "Firefox"),
        entry("gimp", "GIMP"),
        entry("code", "Visual Studio Code"),
    ]);
    println!("Found {} applications", apps.len());
    for app in apps.iter().take(5) {
        println!("  - {} ({})", app.name, app.id);
    }
    assert_eq!(apps.len(), 3);
}

#[test]
fn record_carries_the_entry() {
    let apps = scan_applications(&[entry("gimp", "GIMP")]);
    assert_eq!(apps.len(), 1);
    let app = &apps[0];
    assert_eq!(app.id, "gimp");
    assert_eq!(app.name, "GIMP");
    assert_eq!(app.exec_command, "gimp %U");
    assert_eq!(app.icon, Some("gimp".to_string()));
    assert_eq!(app.keywords, ["one", "two"]);
    assert_eq!(app.description, Some("About GIMP".to_string()));
    assert_eq!(app.path, "/usr/share/applications/gimp.desktop");
}

#[test]
fn catalog_is_sorted_by_lowercase_name() {
    let apps = scan_applications(&[
        entry("z", "zsh"),
        entry("f", "Firefox"),
        entry("a", "alacritty"),
        entry("g", "GIMP"),
        entry("e", "emacs"),
    ]);
    assert_eq!(names(&apps), ["alacritty", "emacs", "Firefox", "GIMP", "zsh"]);
}

#[test]
fn equal_names_keep_their_order() {
    let apps = scan_applications(&[entry("one", "Term"), entry("two", "term"), entry("three", "TERM")]);
    let ids: Vec<&str> = apps.iter().map(|a| a.id.as_str()).collect();
    assert_eq!(ids, ["one", "two", "three"]);
}

#[test]
fn first_entry_of_an_id_wins() {
    let mut user = entry("firefox", "Firefox (user)");
    user.path = "/home/u/.local/share/applications/firefox.desktop".to_string();
    let system = entry("firefox", "Firefox (system)");
    let apps = scan_applications(&[user, system, entry("gimp", "GIMP")]);
    assert_eq!(names(&apps), ["Firefox (user)", "GIMP"]);
    assert_eq!(apps[0].path, "/home/u/.local/share/applications/firefox.desktop");
}

#[test]
fn an_entry_that_is_not_listed_does_not_shadow_a_later_one() {
    let mut hidden = entry("firefox", "Firefox (hidden)");
    hidden.hidden = true;
    let apps = scan_applications(&[hidden, entry("firefox", "Firefox")]);
    assert_eq!(names(&apps), ["Firefox"]);
}

#[test]
fn entries_that_are_not_listed_are_left_out() {
    let mut hidden = entry("a", "Hidden");
    hidden.hidden = true;
    let mut no_display = entry("b", "NoDisplay");
    no_display.no_display = true;
    let mut link = entry("c", "Link");
    link.entry_type = Some("Link".to_string());
    let mut untyped = entry("d", "Untyped");
    untyped.entry_type = None;
    let mut nameless = entry("e", "Nameless");
    nameless.name = None;
    let mut inert = entry("f", "Inert");
    inert.exec_command = None;
    let mut lower = entry("g", "Lowercase type");
    lower.entry_type = Some("application".to_string());
    let mut bare = entry("h", "Bare");
    bare.icon = None;
    bare.comment = None;
    bare.keywords = vec![];

    let apps =
        scan_applications(&[hidden, no_display, link, untyped, nameless, inert, lower, bare]);
    assert_eq!(names(&apps), ["Bare"]);
    assert_eq!(apps[0].icon, None);
    assert_eq!(apps[0].description, None);
    assert!(apps[0].keywords.is_empty());
}

#[test]
fn no_entries_no_catalog() {
    assert!(scan_applications(&[]).is_empty());
}
