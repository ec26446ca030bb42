//! The state of one launcher session: the catalog, the launch history, the
//! list shown for the current query and the selection in it.
//!
//! Nothing here draws, reads files or starts a process. A launch is decided
//! here, recorded in the history and handed back as a command line; running
//! it and writing the history out is the caller's part.

use crate::config::Config;
use crate::desktop::{
    catalog_view, clone_opt, launch_command_of, opt_chars, DesktopApp, DesktopAppView,
};
use crate::history::{callable_at, launched, scores_at, with_id, FrecencyEntry, History};
use crate::icons::{CachedIcon, IconCache};
use crate::matcher::{
    haystack_of, matchable, ranking, results_view, FuzzyMatcher, MatchResult, MatchResultView,
    MAX_QUERY_CHARS,
};
use vstd::prelude::*;
use vstd::string::*;

verus! {

/// Number of icons that the cache of a session holds.
pub const ICON_CACHE_CAPACITY: usize = 200;

/// The applications of a list of results, in order.
pub open spec fn apps_of(results: Seq<MatchResultView>) -> Seq<DesktopAppView> {
    Seq::new(results.len(), |i: int| results[i].app)
}

/// Whether `shown` is the list for `query`: the applications of the
/// shortlist under scores that the history may have at time `now`.
pub open spec fn shown_for<F: Fn(u64) -> u32>(
    shown: Seq<DesktopAppView>,
    query: Seq<char>,
    min_score: u32,
    apps: Seq<DesktopAppView>,
    history: Map<Seq<char>, FrecencyEntry>,
    now: u64,
    decay: &F,
    limit: nat,
) -> bool {
    exists|scores: Map<Seq<char>, u64>| #[trigger]
        scores_at(history, now, decay, scores) && shown == apps_of(
            ranking(query, min_score, apps, scores, limit),
        )
}

/// State shared by the parts of the launcher.
pub struct LauncherState {
    pub apps: Vec<DesktopApp>,
    pub history: History,
    pub matcher: FuzzyMatcher,
    pub icon_cache: IconCache,
    pub config: Config,
    pub filtered_apps: Vec<DesktopApp>,
    pub selected_index: usize,
}

impl LauncherState {
    /// The history and the icon cache are well formed, and every application
    /// of the catalog has a haystack that can be matched against a query.
    pub open spec fn wf(&self) -> bool {
        &&& self.history.wf()
        &&& self.icon_cache.wf()
        &&& forall|i: int|
            0 <= i < self.apps@.len() ==> matchable(haystack_of(#[trigger] self.apps@[i]@))
    }

    /// The state at the start of a session: the catalog and the history as
    /// they were read, an empty icon cache, and the list for the empty query
    /// with its first result selected.
    pub fn new<F: Fn(u64) -> u32>(
        config: &Config,
        apps: Vec<DesktopApp>,
        history: History,
        now: u64,
        decay: &F,
    ) -> (s: Self)
        requires
            history.wf(),
            forall|i: int| 0 <= i < apps@.len() ==> matchable(haystack_of(#[trigger] apps@[i]@)),
            callable_at(history@, now, decay),
        ensures
            s.wf(),
            s.apps == apps,
            s.history == history,
            s.matcher.min_score() == 0,
            s.icon_cache.entries() == Seq::<CachedIcon>::empty(),
            s.icon_cache.capacity() == ICON_CACHE_CAPACITY,
            s.icon_cache.size() == config.appearance.icon_size,
            opt_chars(s.icon_cache.theme()) == opt_chars(config.appearance.icon_theme),
            s.config.launcher == config.launcher,
            opt_chars(s.config.appearance.icon_theme) == opt_chars(config.appearance.icon_theme),
            s.config.appearance.icon_size == config.appearance.icon_size,
            s.selected_index == 0,
            shown_for(
                catalog_view(s.filtered_apps@),
                Seq::<char>::empty(),
                0,
                catalog_view(apps@),
                history@,
                now,
                decay,
                config.launcher.max_results as nat,
            ),
    {
        let icon_cache = IconCache::new(
            ICON_CACHE_CAPACITY,
            config.appearance.icon_size,
            clone_opt(&config.appearance.icon_theme),
        );
        let mut matcher = FuzzyMatcher::new();
        let scores = history.scores(now, decay);
        proof {
            reveal_strlit("");
            assert(""@ =~= Seq::<char>::empty());
        }
        let results = matcher.match_apps("", apps.as_slice(), &scores, config.launcher.max_results);
        let filtered_apps = apps_from(results);
        assert(scores_at(history@, now, decay, scores@));
        LauncherState {
            apps,
            history,
            matcher,
            icon_cache,
            config: config.clone(),
            filtered_apps,
            selected_index: 0,
        }
    }

    /// Whether `after` is this state with the list for `query` shown and its
    /// first result selected, and nothing else changed.
    pub open spec fn filtered_to<F: Fn(u64) -> u32>(
        self,
        after: Self,
        query: Seq<char>,
        now: u64,
        decay: &F,
    ) -> bool {
        &&& after.wf()
        &&& after.apps == self.apps
        &&& after.history == self.history
        &&& after.icon_cache == self.icon_cache
        &&& after.config == self.config
        &&& after.matcher.min_score() == self.matcher.min_score()
        &&& after.selected_index == 0
        &&& shown_for(
            catalog_view(after.filtered_apps@),
            query,
            self.matcher.min_score(),
            catalog_view(self.apps@),
            self.history@,
            now,
            decay,
            self.config.launcher.max_results as nat,
        )
    }

    /// Shows the list for `query` and selects its first result, where the
    /// query is short enough to be matched. A longer query changes nothing
    /// and gives `false`.
    pub fn try_filter<F: Fn(u64) -> u32>(&mut self, query: &str, now: u64, decay: &F) -> (shown:
        bool)
        requires
            old(self).wf(),
            callable_at(old(self).history@, now, decay),
        ensures
            shown == (query@.len() <= MAX_QUERY_CHARS),
            shown ==> old(self).filtered_to(*final(self), query@, now, decay),
            !shown ==> *final(self) == *old(self),
    {
        if query.unicode_len() > MAX_QUERY_CHARS {
            false
        } else {
            self.filter(query, now, decay);
            true
        }
    }

    /// Shows the list for `query` and selects its first result.
    pub fn filter<F: Fn(u64) -> u32>(&mut self, query: &str, now: u64, decay: &F)
        requires
            old(self).wf(),
            query@.len() <= MAX_QUERY_CHARS,
            callable_at(old(self).history@, now, decay),
        ensures
            old(self).filtered_to(*final(self), query@, now, decay),
    {
        let scores = self.history.scores(now, decay);
        let results = self.matcher.match_apps(
            query,
            self.apps.as_slice(),
            &scores,
            self.config.launcher.max_results,
        );
        self.filtered_apps = apps_from(results);
        self.selected_index = 0;
        proof {
            assert(scores_at(old(self).history@, now, decay, scores@));
        }
    }

    /// The selected result, if the selection points at one.
    pub open spec fn selected(&self) -> Option<DesktopApp> {
        if self.selected_index < self.filtered_apps.len() {
            Some(self.filtered_apps[self.selected_index as int])
        } else {
            None
        }
    }

    /// Whether one more launch of the selected result can be counted.
    pub open spec fn can_count_launch(&self) -> bool {
        self.selected() is Some && self.history@.contains_key(self.selected()->0.id@)
            ==> self.history@[self.selected()->0.id@].frequency < u32::MAX
    }

    /// Decides a launch: where a result is selected, the launch is recorded
    /// in the history at the time the system clock shows and the command
    /// line to run is returned. Where the selection points at nothing,
    /// nothing changes and `None` is returned.
    pub fn launch_selected(&mut self) -> (cmd: Option<String>)
        requires
            old(self).wf(),
            old(self).can_count_launch(),
        ensures
            final(self).wf(),
            final(self).apps == old(self).apps,
            final(self).icon_cache == old(self).icon_cache,
            final(self).config == old(self).config,
            final(self).matcher == old(self).matcher,
            final(self).filtered_apps == old(self).filtered_apps,
            final(self).selected_index == old(self).selected_index,
            old(self).selected() is None ==> cmd is None && final(self).history == old(self).history,
            old(self).selected() is Some ==> cmd is Some && cmd->0@ == launch_command_of(
                old(self).selected()->0.exec_command@,
            ) && final(self).history.ids() == with_id(
                old(self).history.ids(),
                old(self).history@,
                old(self).selected()->0.id@,
            ) && exists|now: u64|
                final(self).history@ == launched(
                    old(self).history@,
                    old(self).selected()->0.id@,
                    now,
                ),
    {
        if self.selected_index < self.filtered_apps.len() {
            let cmd = self.filtered_apps[self.selected_index].launch_command();
            self.history.record_launch(self.filtered_apps[self.selected_index].id.as_str());
            Some(cmd)
        } else {
            None
        }
    }

    /// Moves the selection up by one, unless it is at the top.
    pub fn select_prev(&mut self)
        ensures
            final(self).selected_index == if old(self).selected_index > 0 {
                old(self).selected_index - 1
            } else {
                0
            },
            final(self).apps == old(self).apps,
            final(self).history == old(self).history,
            final(self).icon_cache == old(self).icon_cache,
            final(self).config == old(self).config,
            final(self).matcher == old(self).matcher,
            final(self).filtered_apps == old(self).filtered_apps,
    {
        if self.selected_index > 0 {
            self.selected_index = self.selected_index - 1;
        }
    }

    /// Moves the selection down by one, unless it is at the last result.
    pub fn select_next(&mut self)
        ensures
            final(self).selected_index == if old(self).selected_index + 1 < old(self).filtered_apps.len() {
                old(self).selected_index + 1
            } else {
                old(self).selected_index as int
            },
            final(self).apps == old(self).apps,
            final(self).history == old(self).history,
            final(self).icon_cache == old(self).icon_cache,
            final(self).config == old(self).config,
            final(self).matcher == old(self).matcher,
            final(self).filtered_apps == old(self).filtered_apps,
    {
        if self.selected_index < self.filtered_apps.len() && self.selected_index + 1
            < self.filtered_apps.len() {
            self.selected_index = self.selected_index + 1;
        }
    }
}

/// The applications of a list of results, in order.
pub fn apps_from(results: Vec<MatchResult>) -> (apps: Vec<DesktopApp>)
    ensures
        catalog_view(apps@) == apps_of(results_view(results@)),
{
    let mut apps: Vec<DesktopApp> = Vec::new();
    let mut i: usize = 0;
    while i < results.len()
        invariant
            i <= results.len(),
            apps.len() == i,
            forall|j: int| 0 <= j < i ==> (#[trigger] apps[j])@ == results[j]@.app,
        decreases results.len() - i,
    {
        apps.push(results[i].app.clone());
        i = i + 1;
    }
    assert(catalog_view(apps@) =~= apps_of(results_view(results@)));
    apps
}

} // verus!
