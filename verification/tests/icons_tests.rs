use aura_lib::IconCache;
use std::cell::{Cell, RefCell};
use std::path::Path;

fn file_exists(path: &str) -> bool {
    Path::new(path).exists()
}

fn theme_lookup(name: &str, size: u16, theme: &Option<String>) -> Option<String> {
    let mut builder = freedesktop_icons::lookup(name).with_size(size);
    if let Some(theme) = theme {
        builder = builder.with_theme(theme);
    }
    builder.find().map(|p| p.to_string_lossy().into_owned())
}

#[test]
fn test_icon_lookup() {
    let mut cache = IconCache::default();

    // Common icons that should exist on most systems
    let common_icons = ["firefox", "chromium", "terminal", "folder", "application-x-executable"];

    for icon in common_icons {
        if let Some(path) = cache.get(icon, &file_exists, &theme_lookup) {
            println!("Found {}: {:?}", icon, path);
        }
    }
}

#[test]
fn test_cache_behavior() {
    let mut cache = IconCache::new(10, 48, None);

    // First lookup
    let _ = cache.get("nonexistent-icon", &file_exists, &theme_lookup);

    // Second lookup should hit cache (even for None results)
    let _ = cache.get("nonexistent-icon", &file_exists, &theme_lookup);
}

#[test]
fn eviction_drops_least_recently_used() {
    let calls = RefCell::new(Vec::<String>::new());
    let lookup = |name: &str, _size: u16, _theme: &Option<String>| {
        calls.borrow_mut().push(name.to_string());
        Some(format!("/icons/{}.png", name))
    };
    let never = |_path: &str| false;
    let mut cache = IconCache::new(2, 48, None);

    assert_eq!(cache.get("A", &never, &lookup), Some("/icons/A.png".to_string()));
    assert_eq!(cache.get("B", &never, &lookup), Some("/icons/B.png".to_string()));
    assert_eq!(cache.get("C", &never, &lookup), Some("/icons/C.png".to_string()));
    assert_eq!(*calls.borrow(), ["A", "B", "C"]);

    // B and C are served from the cache
    assert_eq!(cache.get("C", &never, &lookup), Some("/icons/C.png".to_string()));
    assert_eq!(cache.get("B", &never, &lookup), Some("/icons/B.png".to_string()));
    assert_eq!(*calls.borrow(), ["A", "B", "C"]);

    // A was evicted: looking it up asks the backend again
    assert_eq!(cache.get("A", &never, &lookup), Some("/icons/A.png".to_string()));
    assert_eq!(*calls.borrow(), ["A", "B", "C", "A"]);
}

#[test]
fn a_hit_counts_as_use() {
    let calls = Cell::new(0u32);
    let lookup = |name: &str, _size: u16, _theme: &Option<String>| {
        calls.set(calls.get() + 1);
        Some(name.to_uppercase())
    };
    let never = |_path: &str| false;
    let mut cache = IconCache::new(2, 48, None);

    cache.get("a", &never, &lookup);
    cache.get("b", &never, &lookup);
    // "a" is used again, so "b" is now the least recently used
    cache.get("a", &never, &lookup);
    cache.get("c", &never, &lookup);
    assert_eq!(calls.get(), 3);
    assert_eq!(cache.cached("a"), Some(Some("A".to_string())));
    assert_eq!(cache.cached("c"), Some(Some("C".to_string())));
    assert_eq!(cache.cached("b"), None);
    assert_eq!(calls.get(), 3);
}

#[test]
fn misses_are_cached_too() {
    let calls = Cell::new(0u32);
    let lookup = |_name: &str, _size: u16, _theme: &Option<String>| {
        calls.set(calls.get() + 1);
        None
    };
    let never = |_path: &str| false;
    let mut cache = IconCache::new(4, 48, None);

    assert_eq!(cache.get("X", &never, &lookup), None);
    assert_eq!(calls.get(), 1);
    assert_eq!(cache.get("X", &never, &lookup), None);
    assert_eq!(cache.get("X", &never, &lookup), None);
    assert_eq!(calls.get(), 1);
    assert_eq!(cache.cached("X"), Some(None));
    assert_eq!(cache.cached("Y"), None);
}

#[test]
fn backend_gets_size_and_theme() {
    let seen = RefCell::new(Vec::new());
    let lookup = |name: &str, size: u16, theme: &Option<String>| {
        seen.borrow_mut().push((name.to_string(), size, theme.clone()));
        None
    };
    let never = |_path: &str| false;
    let mut cache = IconCache::new(4, 64, Some("Adwaita".to_string()));
    cache.get("folder", &never, &lookup);
    assert_eq!(*seen.borrow(), [("folder".to_string(), 64, Some("Adwaita".to_string()))]);
}

#[test]
fn absolute_path_that_exists_is_its_own_answer() {
    let theme_calls = Cell::new(0u32);
    let probes = RefCell::new(Vec::<String>::new());
    let lookup = |_name: &str, _size: u16, _theme: &Option<String>| {
        theme_calls.set(theme_calls.get() + 1);
        Some("/themes/found.png".to_string())
    };
    let exists = |path: &str| {
        probes.borrow_mut().push(path.to_string());
        path == "/opt/app/icon.png"
    };
    let mut cache = IconCache::new(4, 48, None);

    assert_eq!(cache.get("/opt/app/icon.png", &exists, &lookup), Some("/opt/app/icon.png".to_string()));
    assert_eq!(theme_calls.get(), 0);
    // the answer was recorded
    assert_eq!(cache.cached("/opt/app/icon.png"), Some(Some("/opt/app/icon.png".to_string())));
    // an absolute path that does not exist is asked of the themes
    assert_eq!(cache.get("/opt/app/gone.png", &exists, &lookup), Some("/themes/found.png".to_string()));
    assert_eq!(theme_calls.get(), 1);
    // a plain name is never probed as a file
    assert_eq!(cache.get("firefox", &exists, &lookup), Some("/themes/found.png".to_string()));
    assert_eq!(theme_calls.get(), 2);
    assert_eq!(*probes.borrow(), ["/opt/app/icon.png", "/opt/app/gone.png"]);
    // an absolute path is probed before the cache is asked
    assert_eq!(cache.get("/opt/app/icon.png", &exists, &lookup), Some("/opt/app/icon.png".to_string()));
    assert_eq!(cache.get("/opt/app/gone.png", &exists, &lookup), Some("/themes/found.png".to_string()));
    assert_eq!(probes.borrow().len(), 4);
    assert_eq!(theme_calls.get(), 2);
}

#[test]
fn absolute_path_follows_the_file() {
    let present = Cell::new(false);
    let theme_calls = Cell::new(0u32);
    let lookup = |_name: &str, _size: u16, _theme: &Option<String>| {
        theme_calls.set(theme_calls.get() + 1);
        None
    };
    let exists = |_path: &str| present.get();
    let mut cache = IconCache::new(4, 48, None);

    // no file, no themed icon: the miss is cached
    assert_eq!(cache.get("/tmp/icon.png", &exists, &lookup), None);
    assert_eq!(cache.get("/tmp/icon.png", &exists, &lookup), None);
    assert_eq!(theme_calls.get(), 1);
    // once the file is there it is the answer, whatever the cache held
    present.set(true);
    assert_eq!(cache.get("/tmp/icon.png", &exists, &lookup), Some("/tmp/icon.png".to_string()));
    // and when it is gone again the cache still has the recorded path
    present.set(false);
    assert_eq!(cache.get("/tmp/icon.png", &exists, &lookup), Some("/tmp/icon.png".to_string()));
    assert_eq!(theme_calls.get(), 1);
}

#[test]
fn empty_name_is_looked_up_like_any_other() {
    let calls = Cell::new(0u32);
    let lookup = |_name: &str, _size: u16, _theme: &Option<String>| {
        calls.set(calls.get() + 1);
        None
    };
    let always = |_path: &str| true;
    let mut cache = IconCache::new(4, 48, None);
    assert_eq!(cache.get("", &always, &lookup), None);
    assert_eq!(cache.get("", &always, &lookup), None);
    assert_eq!(calls.get(), 1);
}

#[test]
fn store_replaces_and_clear_empties() {
    let mut cache = IconCache::new(2, 48, None);
    cache.store("a", Some("/1".to_string()));
    cache.store("a", Some("/2".to_string()));
    cache.store("b", None);
    // replacing "a" did not take a second place
    assert_eq!(cache.cached("a"), Some(Some("/2".to_string())));
    assert_eq!(cache.cached("b"), Some(None));
    cache.clear();
    assert_eq!(cache.cached("a"), None);
    assert_eq!(cache.cached("b"), None);
    // the capacity is as before
    cache.store("x", None);
    cache.store("y", None);
    cache.store("z", None);
    assert_eq!(cache.cached("x"), None);
    assert_eq!(cache.cached("y"), Some(None));
    assert_eq!(cache.cached("z"), Some(None));
}

#[test]
fn capacity_zero_falls_back() {
    let mut cache = IconCache::new(0, 48, None);
    for i in 0..100 {
        cache.store(&format!("icon{}", i), None);
    }
    assert_eq!(cache.cached("icon0"), Some(None));
    cache.store("one-more", None);
    // "icon0" was just used, so "icon1" is the one that goes
    assert_eq!(cache.cached("icon1"), None);
    assert_eq!(cache.cached("icon0"), Some(None));
    assert_eq!(cache.cached("icon99"), Some(None));
}

#[test]
fn default_cache_holds_two_hundred() {
    let mut cache = IconCache::default();
    for i in 0..200 {
        cache.store(&format!("icon{}", i), Some(i.to_string()));
    }
    assert_eq!(cache.cached("icon0"), Some(Some("0".to_string())));
    cache.store("icon200", None);
    assert_eq!(cache.cached("icon1"), None);
    assert_eq!(cache.cached("icon2"), Some(Some("2".to_string())));
}
