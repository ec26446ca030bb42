use aura_lib::history::{HALF_LIFE_SECS, SCORE_ONE};
use aura_lib::{FrecencyEntry, FrecencyScores, History};
use std::time::{SystemTime, UNIX_EPOCH};

fn half_life_decay(age_secs: u64) -> u32 {
    let half_lives = age_secs as f64 / HALF_LIFE_SECS as f64;
    (0.5f64.powf(half_lives) * SCORE_ONE as f64).round() as u32
}

fn now_secs() -> u64 {
    SystemTime::now().duration_since(UNIX_EPOCH).unwrap().as_secs()
}

#[test]
fn test_frecency_score() {
    let now = now_secs();
    let entry = FrecencyEntry { frequency: 10, last_accessed: now };

    // Recent entry should have score close to frequency
    let score = entry.score(now, &half_life_decay);
    assert!(score > 9_000_000 && score <= 10_000_000, "Score was {}", score);
}

#[test]
fn test_record_launch() {
    let mut history = History::default();
    history.record_launch("firefox");
    history.record_launch("firefox");
    history.record_launch("firefox");

    assert_eq!(history.entry("firefox").unwrap().frequency, 3);
}

#[test]
fn record_launch_at_sets_count_and_time() {
    let mut history = History::new();
    assert_eq!(history.entry("gimp"), None);
    history.record_launch_at("gimp", 1_000);
    assert_eq!(history.entry("gimp"), Some(FrecencyEntry { frequency: 1, last_accessed: 1_000 }));
    history.record_launch_at("gimp", 2_500);
    assert_eq!(history.entry("gimp"), Some(FrecencyEntry { frequency: 2, last_accessed: 2_500 }));
    history.record_launch_at("vlc", 2_600);
    assert_eq!(history.entry("gimp"), Some(FrecencyEntry { frequency: 2, last_accessed: 2_500 }));
    assert_eq!(history.entry("vlc"), Some(FrecencyEntry { frequency: 1, last_accessed: 2_600 }));
}

#[test]
fn record_launch_reads_the_clock() {
    let before = now_secs();
    let mut history = History::new();
    history.record_launch("firefox");
    let after = now_secs();
    let entry = history.entry("firefox").unwrap();
    assert_eq!(entry.frequency, 1);
    assert!(before <= entry.last_accessed && entry.last_accessed <= after);
}

#[test]
fn age_is_clamped_at_zero() {
    let entry = FrecencyEntry { frequency: 4, last_accessed: 5_000 };
    assert_eq!(entry.age_secs(5_000), 0);
    assert_eq!(entry.age_secs(5_060), 60);
    assert_eq!(entry.age_secs(4_000), 0);
    assert_eq!(entry.age_secs(u64::MAX), u64::MAX - 5_000);
}

#[test]
fn score_with_multiplies_count_and_factor() {
    let entry = FrecencyEntry { frequency: 3, last_accessed: 0 };
    assert_eq!(entry.score_with(SCORE_ONE), 3_000_000);
    assert_eq!(entry.score_with(500_000), 1_500_000);
    assert_eq!(entry.score_with(0), 0);
    let most = FrecencyEntry { frequency: u32::MAX, last_accessed: 0 };
    assert_eq!(most.score_with(u32::MAX), 18_446_744_065_119_617_025);
}

#[test]
fn score_halves_with_each_half_life() {
    let entry = FrecencyEntry { frequency: 8, last_accessed: 1_000_000 };
    assert_eq!(entry.score(1_000_000, &half_life_decay), 8_000_000);
    assert_eq!(entry.score(1_000_000 + HALF_LIFE_SECS, &half_life_decay), 4_000_000);
    assert_eq!(entry.score(1_000_000 + 2 * HALF_LIFE_SECS, &half_life_decay), 2_000_000);
    // a clock that runs behind the last launch counts as no age at all
    assert_eq!(entry.score(999_000, &half_life_decay), 8_000_000);
}

#[test]
fn score_never_rises_while_time_passes() {
    let entry = FrecencyEntry { frequency: 7, last_accessed: 10_000 };
    let mut last = u64::MAX;
    let mut now = 9_000;
    while now < 10_000 + 5 * HALF_LIFE_SECS {
        let score = entry.score(now, &half_life_decay);
        assert!(score <= last);
        last = score;
        now += 40_000;
    }
}

#[test]
fn launch_raises_score() {
    let mut history = History::new();
    history.record_launch_at("firefox", 1_000);
    let later = 1_000 + HALF_LIFE_SECS;
    let before = history.get_score("firefox", later, &half_life_decay);
    history.record_launch_at("firefox", later);
    let after = history.get_score("firefox", later, &half_life_decay);
    assert_eq!(before, 500_000);
    assert_eq!(after, 2_000_000);
    assert!(after > before);
}

#[test]
fn get_score_of_unknown_app_is_zero() {
    let history = History::new();
    assert_eq!(history.get_score("nothing", 77, &half_life_decay), 0);
}

#[test]
fn scores_cover_every_entry() {
    let mut history = History::new();
    history.record_launch_at("a", 0);
    history.record_launch_at("b", HALF_LIFE_SECS);
    history.record_launch_at("b", HALF_LIFE_SECS);
    let scores = history.scores(HALF_LIFE_SECS, &half_life_decay);
    assert_eq!(scores.get_score("a"), 500_000);
    assert_eq!(scores.get_score("b"), 2_000_000);
    assert_eq!(scores.get_score("c"), 0);
}

#[test]
fn score_table_set_and_get() {
    let mut scores = FrecencyScores::new();
    assert_eq!(scores.get_score("x"), 0);
    scores.set("x", 12);
    scores.set("y", 5);
    scores.set("x", 13);
    assert_eq!(scores.get_score("x"), 13);
    assert_eq!(scores.get_score("y"), 5);
}

#[test]
fn load_of_nothing_is_empty() {
    let history = History::load(None);
    assert!(history.entries().is_empty());
    assert_eq!(history.entry("firefox"), None);
}

#[test]
fn load_keeps_last_entry_of_an_id() {
    let stored = vec![
        ("firefox".to_string(), FrecencyEntry { frequency: 2, last_accessed: 10 }),
        ("gimp".to_string(), FrecencyEntry { frequency: 1, last_accessed: 20 }),
        ("firefox".to_string(), FrecencyEntry { frequency: 9, last_accessed: 30 }),
    ];
    let history = History::load(Some(stored));
    assert_eq!(history.entry("firefox"), Some(FrecencyEntry { frequency: 9, last_accessed: 30 }));
    assert_eq!(history.entry("gimp"), Some(FrecencyEntry { frequency: 1, last_accessed: 20 }));
    assert_eq!(history.entries().len(), 2);
}

#[test]
fn entries_round_trip_through_load() {
    let mut history = History::new();
    history.record_launch_at("firefox", 100);
    history.record_launch_at("gimp", 200);
    history.record_launch_at("firefox", 300);
    history.insert("vlc", FrecencyEntry { frequency: 40, last_accessed: 7 });

    let written = history.entries();
    assert_eq!(written.len(), 3);
    let reloaded = History::load(Some(written));

    let mut a = history.entries();
    let mut b = reloaded.entries();
    a.sort_by(|x, y| x.0.as_str().partial_cmp(y.0.as_str()).unwrap());
    b.sort_by(|x, y| x.0.as_str().partial_cmp(y.0.as_str()).unwrap());
    assert_eq!(a, b);
    assert_eq!(reloaded.entry("firefox"), Some(FrecencyEntry { frequency: 2, last_accessed: 300 }));
    assert_eq!(reloaded.entry("vlc"), Some(FrecencyEntry { frequency: 40, last_accessed: 7 }));
}

#[test]
fn factor_is_never_more_than_one() {
    let generous = |_age: u64| 3 * SCORE_ONE;
    let entry = FrecencyEntry { frequency: 5, last_accessed: 100 };
    assert_eq!(entry.score(200, &generous), 5_000_000);
    let exact = |_age: u64| SCORE_ONE;
    assert_eq!(entry.score(200, &exact), 5_000_000);
    let less = |_age: u64| SCORE_ONE - 1;
    assert_eq!(entry.score(200, &less), 4_999_995);
}

#[test]
fn entry_without_age_scores_at_full_factor() {
    let calls = std::cell::Cell::new(0u32);
    let nothing_left = |_age: u64| {
        calls.set(calls.get() + 1);
        0
    };
    let entry = FrecencyEntry { frequency: 5, last_accessed: 100 };
    assert_eq!(entry.score(100, &nothing_left), 5_000_000);
    assert_eq!(entry.score(99, &nothing_left), 5_000_000);
    assert_eq!(calls.get(), 0);
    assert_eq!(entry.score(101, &nothing_left), 0);
    assert_eq!(calls.get(), 1);
}

#[test]
fn launch_raises_score_under_any_decay() {
    let flat = |_age: u64| SCORE_ONE;
    let mut history = History::new();
    history.record_launch_at("firefox", 1_000);
    let before = history.get_score("firefox", 5_000, &flat);
    history.record_launch_at("firefox", 5_000);
    let after = history.get_score("firefox", 5_000, &flat);
    assert_eq!(before, 1_000_000);
    assert_eq!(after, 2_000_000);
}

#[test]
fn entries_keep_the_order_of_first_launch() {
    let mut history = History::new();
    history.record_launch_at("gimp", 1);
    history.record_launch_at("firefox", 2);
    history.record_launch_at("gimp", 3);
    history.record_launch_at("vlc", 4);
    let ids: Vec<String> = history.entries().into_iter().map(|(id, _)| id).collect();
    assert_eq!(ids, ["gimp", "firefox", "vlc"]);

    let stored = vec![
        ("b".to_string(), FrecencyEntry { frequency: 1, last_accessed: 1 }),
        ("a".to_string(), FrecencyEntry { frequency: 2, last_accessed: 2 }),
        ("b".to_string(), FrecencyEntry { frequency: 3, last_accessed: 3 }),
    ];
    let loaded = History::load(Some(stored));
    assert_eq!(
        loaded.entries(),
        vec![
            ("b".to_string(), FrecencyEntry { frequency: 3, last_accessed: 3 }),
            ("a".to_string(), FrecencyEntry { frequency: 2, last_accessed: 2 }),
        ]
    );
}
