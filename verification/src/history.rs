//! Launch history: how often and how recently each application was started,
//! and the frecency scores that follow from it.
//!
//! Scores are fixed-point numbers in millionths: a score of
//! [`SCORE_ONE`] stands for one launch that has not decayed at all. The decay
//! factor of an age, a power of one half with a real exponent, is not
//! computed here; callers hand it in as a function from the age in seconds to
//! a factor in millionths. Whatever that function returns, a factor is never
//! taken to be more than one, and an entry without age scores at the full
//! factor.

use std::time::{SystemTime, UNIX_EPOCH};
use vstd::hash_map::StringHashMap;
use vstd::prelude::*;

verus! {

/// The fixed-point representation of the score 1.0 and of the decay factor 1.0.
pub const SCORE_ONE: u32 = 1_000_000;

/// Seconds after which a score has halved: seven days.
pub const HALF_LIFE_SECS: u64 = 604_800;

/// Launch count and time of the last launch of one application.
#[derive(Debug, Clone, Copy, PartialEq, Eq, Structural)]
pub struct FrecencyEntry {
    /// Number of recorded launches.
    pub frequency: u32,
    /// Time of the last launch, in seconds since the Unix epoch.
    pub last_accessed: u64,
}

/// Seconds between a last access and `now`; zero when the clock reads
/// earlier than the last access.
pub open spec fn age_at(last_accessed: u64, now: u64) -> int {
    if now >= last_accessed {
        now - last_accessed
    } else {
        0
    }
}

/// The score, in millionths, of `frequency` launches under a decay factor
/// given in millionths.
pub open spec fn decayed(frequency: u32, factor: u32) -> int {
    frequency * factor
}

/// The history after one launch of `id` at time `now`: the launch count of
/// `id` grows by one, starting from zero for an unknown id, and its last
/// access becomes `now`. Every other entry stays.
pub open spec fn launched(
    m: Map<Seq<char>, FrecencyEntry>,
    id: Seq<char>,
    now: u64,
) -> Map<Seq<char>, FrecencyEntry> {
    let before: int = if m.contains_key(id) {
        m[id].frequency as int
    } else {
        0
    };
    m.insert(id, FrecencyEntry { frequency: (before + 1) as u32, last_accessed: now })
}

/// The score recorded for `id`, zero for an id without one.
pub open spec fn score_in(m: Map<Seq<char>, u64>, id: Seq<char>) -> u64 {
    if m.contains_key(id) {
        m[id]
    } else {
        0
    }
}

/// The factor that counts where the decay function returned `d`: what it
/// returned, but never more than one.
pub open spec fn capped(d: u32) -> u32 {
    if d > SCORE_ONE {
        SCORE_ONE
    } else {
        d
    }
}

/// Whether `score` is a score that `entry` may have at time `now`. An entry
/// without age scores its launch count at the full factor. An older one
/// scores its launch count times a factor that `decay` may return for its
/// age, capped at one.
pub open spec fn may_score<F: Fn(u64) -> u32>(
    entry: FrecencyEntry,
    now: u64,
    decay: &F,
    score: u64,
) -> bool {
    let age = age_at(entry.last_accessed, now);
    if age == 0 {
        score == decayed(entry.frequency, SCORE_ONE)
    } else {
        exists|d: u32|
            decay.ensures((age as u64,), d) && score == #[trigger] decayed(
                entry.frequency,
                capped(d),
            )
    }
}

/// Whether `scores` holds, for each entry of the history `m` and for nothing
/// else, a score that the entry may have at time `now`.
pub open spec fn scores_at<F: Fn(u64) -> u32>(
    m: Map<Seq<char>, FrecencyEntry>,
    now: u64,
    decay: &F,
    scores: Map<Seq<char>, u64>,
) -> bool {
    &&& forall|k: Seq<char>| scores.contains_key(k) <==> m.contains_key(k)
    &&& forall|k: Seq<char>| #[trigger]
        m.contains_key(k) ==> may_score(m[k], now, decay, scores[k])
}

/// The history that a list of entries describes: where an id occurs more
/// than once, its last entry counts.
pub open spec fn history_of(entries: Seq<(String, FrecencyEntry)>) -> Map<Seq<char>, FrecencyEntry>
    decreases entries.len(),
{
    if entries.len() == 0 {
        Map::empty()
    } else {
        history_of(entries.drop_last()).insert(entries.last().0@, entries.last().1)
    }
}

/// The ids in the order in which they were first recorded, after `id` is
/// recorded in a history `m` whose ids are `ids`: a new id goes to the end.
pub open spec fn with_id(
    ids: Seq<Seq<char>>,
    m: Map<Seq<char>, FrecencyEntry>,
    id: Seq<char>,
) -> Seq<Seq<char>> {
    if m.contains_key(id) {
        ids
    } else {
        ids.push(id)
    }
}

/// The ids of a list of entries, each once, in the order in which they first
/// occur.
pub open spec fn index_of(entries: Seq<(String, FrecencyEntry)>) -> Seq<Seq<char>>
    decreases entries.len(),
{
    if entries.len() == 0 {
        Seq::empty()
    } else {
        with_id(
            index_of(entries.drop_last()),
            history_of(entries.drop_last()),
            entries.last().0@,
        )
    }
}

/// Whether `decay` can be called for the age of `entry` at time `now`, where
/// the entry has an age.
pub open spec fn callable_for<F: Fn(u64) -> u32>(entry: FrecencyEntry, now: u64, decay: &F) -> bool {
    age_at(entry.last_accessed, now) > 0 ==> decay.requires(
        (age_at(entry.last_accessed, now) as u64,),
    )
}

/// Whether `decay` can be called for the age that each entry of the history
/// `m` has at time `now`.
pub open spec fn callable_at<F: Fn(u64) -> u32>(
    m: Map<Seq<char>, FrecencyEntry>,
    now: u64,
    decay: &F,
) -> bool {
    forall|k: Seq<char>| #[trigger] m.contains_key(k) ==> callable_for(m[k], now, decay)
}

/// Reads the system clock through `SystemTime::now`: whole seconds since the
/// Unix epoch, zero when the clock stands before the epoch. Nothing is
/// claimed of the value.
#[verifier::external_body]
fn unix_now() -> u64 {
    SystemTime::now().duration_since(UNIX_EPOCH).unwrap_or_default().as_secs()
}

impl FrecencyEntry {
    /// Seconds since the last launch at time `now`, never negative.
    pub fn age_secs(&self, now: u64) -> (age: u64)
        ensures
            age == age_at(self.last_accessed, now),
    {
        if now >= self.last_accessed {
            now - self.last_accessed
        } else {
            0
        }
    }

    /// The score of the entry under a decay factor given in millionths: the
    /// launch count times the factor.
    pub fn score_with(&self, decay: u32) -> (score: u64)
        ensures
            score == decayed(self.frequency, decay),
    {
        assert(self.frequency * decay <= 0xFFFF_FFFF * 0xFFFF_FFFF) by (nonlinear_arith)
            requires
                self.frequency <= 0xFFFF_FFFF,
                decay <= 0xFFFF_FFFF,
        ;
        (self.frequency as u64) * (decay as u64)
    }

    /// The score of the entry at time `now`: the launch count times the
    /// decay factor of the entry's age. The factor is one for an entry
    /// without age; for an older one it is what `decay` returns for the age,
    /// and never more than one.
    pub fn score<F: Fn(u64) -> u32>(&self, now: u64, decay: &F) -> (score: u64)
        requires
            callable_for(*self, now, decay),
        ensures
            may_score(*self, now, decay, score),
    {
        let age = self.age_secs(now);
        if age == 0 {
            self.score_with(SCORE_ONE)
        } else {
            let d: u32 = decay(age);
            let factor: u32 = if d > SCORE_ONE {
                SCORE_ONE
            } else {
                d
            };
            assert(factor == capped(d));
            self.score_with(factor)
        }
    }
}

/// The launch history of all applications, by application id.
pub struct History {
    apps: StringHashMap<FrecencyEntry>,
    ids: Vec<String>,
}

impl View for History {
    type V = Map<Seq<char>, FrecencyEntry>;

    closed spec fn view(&self) -> Map<Seq<char>, FrecencyEntry> {
        self.apps@
    }
}

impl History {
    /// The ids that have an entry, in the order in which they were first
    /// recorded.
    pub closed spec fn ids(&self) -> Seq<Seq<char>> {
        Seq::new(self.ids.len() as nat, |i: int| self.ids[i]@)
    }

    /// The ids are kept once each, and they are the ids that have an entry.
    /// [`History::lemma_wf`] says the same over [`History::ids`] and the view.
    pub closed spec fn wf(&self) -> bool {
        &&& forall|i: int, j: int|
            0 <= i < j < self.ids.len() ==> self.ids[i]@ != self.ids[j]@
        &&& forall|i: int| 0 <= i < self.ids.len() ==> self.apps@.contains_key(#[trigger] self.ids[i]@)
        &&& forall|k: Seq<char>| #[trigger]
            self.apps@.contains_key(k) ==> exists|i: int|
                0 <= i < self.ids.len() && self.ids[i]@ == k
    }

    /// What a well-formed history is: no id stands twice among its ids, and
    /// its ids are the ids that have an entry.
    pub proof fn lemma_wf(&self)
        ensures
            self.wf() <==> {
                &&& forall|i: int, j: int|
                    0 <= i < j < self.ids().len() ==> self.ids()[i] != self.ids()[j]
                &&& forall|k: Seq<char>| self@.contains_key(k) <==> self.ids().contains(k)
            },
    {
        let ids = self.ids();
        if self.wf() {
            assert forall|k: Seq<char>| self@.contains_key(k) <==> ids.contains(k) by {
                if self@.contains_key(k) {
                    let i = choose|i: int| 0 <= i < self.ids.len() && self.ids[i]@ == k;
                    assert(ids[i] == k);
                }
                if ids.contains(k) {
                    let i = choose|i: int| 0 <= i < ids.len() && ids[i] == k;
                    assert(self.apps@.contains_key(self.ids[i]@));
                }
            }
        }
        if (forall|i: int, j: int| 0 <= i < j < ids.len() ==> ids[i] != ids[j]) && (forall|
            k: Seq<char>,
        | self@.contains_key(k) <==> ids.contains(k)) {
            assert forall|i: int, j: int| 0 <= i < j < self.ids.len() implies self.ids[i]@
                != self.ids[j]@ by {
                assert(ids[i] != ids[j]);
            }
            assert forall|i: int| 0 <= i < self.ids.len() implies self.apps@.contains_key(
                #[trigger] self.ids[i]@,
            ) by {
                assert(ids[i] == self.ids[i]@);
                assert(ids.contains(self.ids[i]@));
            }
            assert forall|k: Seq<char>| #[trigger] self.apps@.contains_key(k) implies exists|i: int|
                0 <= i < self.ids.len() && self.ids[i]@ == k by {
                assert(ids.contains(k));
                let i = choose|i: int| 0 <= i < ids.len() && ids[i] == k;
                assert(self.ids[i]@ == k);
            }
        }
    }

    /// A history without entries.
    pub fn new() -> (h: Self)
        ensures
            h.wf(),
            h@ == Map::<Seq<char>, FrecencyEntry>::empty(),
            h.ids() == Seq::<Seq<char>>::empty(),
    {
        let h = History { apps: StringHashMap::new(), ids: Vec::new() };
        assert(h.ids() =~= Seq::<Seq<char>>::empty());
        h
    }

    /// The history that was read from durable storage, or an empty one where
    /// nothing could be read: `None` stands for a missing or malformed file.
    pub fn load(stored: Option<Vec<(String, FrecencyEntry)>>) -> (h: Self)
        ensures
            h.wf(),
            h@ == match stored {
                Some(entries) => history_of(entries@),
                None => Map::<Seq<char>, FrecencyEntry>::empty(),
            },
            h.ids() == match stored {
                Some(entries) => index_of(entries@),
                None => Seq::<Seq<char>>::empty(),
            },
    {
        let mut h = History::new();
        match stored {
            Some(entries) => {
                let mut i: usize = 0;
                assert(entries@.take(0) =~= Seq::<(String, FrecencyEntry)>::empty());
                while i < entries.len()
                    invariant
                        i <= entries.len(),
                        h.wf(),
                        h@ == history_of(entries@.take(i as int)),
                        h.ids() == index_of(entries@.take(i as int)),
                    decreases entries.len() - i,
                {
                    assert(entries@.take(i as int + 1).drop_last() =~= entries@.take(i as int));
                    h.insert(entries[i].0.as_str(), entries[i].1);
                    i = i + 1;
                }
                assert(entries@.take(entries.len() as int) =~= entries@);
            },
            None => {},
        }
        h
    }

    /// Sets the entry of `app_id`, replacing the one it had.
    pub fn insert(&mut self, app_id: &str, entry: FrecencyEntry)
        requires
            old(self).wf(),
        ensures
            final(self).wf(),
            final(self)@ == old(self)@.insert(app_id@, entry),
            final(self).ids() == with_id(old(self).ids(), old(self)@, app_id@),
    {
        let known = self.apps.contains_key(app_id);
        self.apps.insert(app_id.to_owned(), entry);
        if !known {
            self.ids.push(app_id.to_owned());
            assert(self.ids@.last()@ == app_id@);
        }
        assert(self.ids() =~= with_id(old(self).ids(), old(self)@, app_id@));
        assert(self.wf()) by {
            let n = old(self).ids.len() as int;
            assert forall|i: int| 0 <= i < self.ids.len() implies self.apps@.contains_key(
                #[trigger] self.ids[i]@,
            ) by {
                if i < n {
                    assert(old(self).apps@.contains_key(old(self).ids[i]@));
                }
            }
            assert forall|k: Seq<char>| #[trigger] self.apps@.contains_key(k) implies exists|i: int|
                0 <= i < self.ids.len() && self.ids[i]@ == k by {
                if k == app_id@ && !known {
                    assert(self.ids[n]@ == k);
                } else {
                    assert(old(self).apps@.contains_key(k));
                    let i = choose|i: int| 0 <= i < n && old(self).ids[i]@ == k;
                    assert(self.ids[i]@ == k);
                }
            }
            assert forall|i: int, j: int| 0 <= i < j < self.ids.len() implies self.ids[i]@
                != self.ids[j]@ by {
                if j == n {
                    assert(old(self).apps@.contains_key(old(self).ids[i]@));
                }
            }
        }
    }

    /// The entry of `app_id`, if it was ever launched.
    pub fn entry(&self, app_id: &str) -> (e: Option<FrecencyEntry>)
        ensures
            e == if self@.contains_key(app_id@) {
                Some(self@[app_id@])
            } else {
                None
            },
    {
        match self.apps.get(app_id) {
            Some(e) => Some(*e),
            None => None,
        }
    }

    /// Records one launch of `app_id` at time `now`.
    pub fn record_launch_at(&mut self, app_id: &str, now: u64)
        requires
            old(self).wf(),
            old(self)@.contains_key(app_id@) ==> old(self)@[app_id@].frequency < u32::MAX,
        ensures
            final(self).wf(),
            final(self)@ == launched(old(self)@, app_id@, now),
            final(self).ids() == with_id(old(self).ids(), old(self)@, app_id@),
    {
        let before: u32 = match self.entry(app_id) {
            Some(e) => e.frequency,
            None => 0,
        };
        self.insert(app_id, FrecencyEntry { frequency: before + 1, last_accessed: now });
    }

    /// Records one launch of `app_id` at the time the system clock shows.
    pub fn record_launch(&mut self, app_id: &str)
        requires
            old(self).wf(),
            old(self)@.contains_key(app_id@) ==> old(self)@[app_id@].frequency < u32::MAX,
        ensures
            final(self).wf(),
            exists|now: u64| final(self)@ == launched(old(self)@, app_id@, now),
            final(self).ids() == with_id(old(self).ids(), old(self)@, app_id@),
    {
        let now = unix_now();
        self.record_launch_at(app_id, now);
    }

    /// The frecency score of `app_id` at time `now`: zero if it was never
    /// launched, else the score of its entry.
    pub fn get_score<F: Fn(u64) -> u32>(&self, app_id: &str, now: u64, decay: &F) -> (score: u64)
        requires
            self@.contains_key(app_id@) ==> callable_for(self@[app_id@], now, decay),
        ensures
            !self@.contains_key(app_id@) ==> score == 0,
            self@.contains_key(app_id@) ==> may_score(self@[app_id@], now, decay, score),
    {
        match self.entry(app_id) {
            Some(e) => e.score(now, decay),
            None => 0,
        }
    }

    /// All entries, each id once, in the order in which the ids were first
    /// recorded.
    pub fn entries(&self) -> (r: Vec<(String, FrecencyEntry)>)
        requires
            self.wf(),
        ensures
            r.len() == self.ids().len(),
            forall|i: int| 0 <= i < r.len() ==> (#[trigger] r[i]).0@ == self.ids()[i],
            forall|i: int|
                0 <= i < r.len() ==> self@.contains_key(#[trigger] r[i].0@) && self@[r[i].0@]
                    == r[i].1,
            forall|i: int, j: int| 0 <= i < j < r.len() ==> r[i].0@ != r[j].0@,
            forall|k: Seq<char>| #[trigger]
                self@.contains_key(k) ==> exists|i: int| 0 <= i < r.len() && r[i].0@ == k,
    {
        let mut r: Vec<(String, FrecencyEntry)> = Vec::new();
        let mut i: usize = 0;
        while i < self.ids.len()
            invariant
                self.wf(),
                i <= self.ids.len(),
                r.len() == i,
                forall|j: int|
                    0 <= j < i ==> (#[trigger] r[j]).0@ == self.ids[j]@ && self.apps@[self.ids[j]@]
                        == r[j].1,
            decreases self.ids.len() - i,
        {
            let id = self.ids[i].clone();
            assert(self.apps@.contains_key(self.ids[i as int]@));
            let e = match self.apps.get(id.as_str()) {
                Some(e) => *e,
                None => FrecencyEntry { frequency: 0, last_accessed: 0 },
            };
            r.push((id, e));
            i = i + 1;
        }
        assert forall|k: Seq<char>| #[trigger] self@.contains_key(k) implies exists|i: int|
            0 <= i < r.len() && r[i].0@ == k by {
            let i = choose|i: int| 0 <= i < self.ids.len() && self.ids[i]@ == k;
            assert(r[i].0@ == k);
        }
        assert forall|i: int| 0 <= i < r.len() implies self@.contains_key(#[trigger] r[i].0@)
            && self@[r[i].0@] == r[i].1 by {
            assert(self.apps@.contains_key(self.ids[i]@));
        }
        r
    }

    /// The scores of all entries at time `now`, under the decay factors that
    /// `decay` returns for their ages.
    pub fn scores<F: Fn(u64) -> u32>(&self, now: u64, decay: &F) -> (s: FrecencyScores)
        requires
            self.wf(),
            callable_at(self@, now, decay),
        ensures
            scores_at(self@, now, decay, s@),
    {
        let mut s = FrecencyScores::new();
        let mut i: usize = 0;
        while i < self.ids.len()
            invariant
                self.wf(),
                i <= self.ids.len(),
                callable_at(self.apps@, now, decay),
                forall|k: Seq<char>|
                    s@.contains_key(k) <==> exists|j: int| 0 <= j < i && self.ids[j]@ == k,
                forall|k: Seq<char>| #[trigger]
                    s@.contains_key(k) ==> may_score(self.apps@[k], now, decay, s@[k]),
            decreases self.ids.len() - i,
        {
            let id = self.ids[i].clone();
            assert(self.apps@.contains_key(self.ids[i as int]@));
            let score = self.get_score(id.as_str(), now, decay);
            let ghost before = s@;
            s.set(id.as_str(), score);
            assert forall|k: Seq<char>| s@.contains_key(k) <==> exists|j: int|
                0 <= j < i + 1 && self.ids[j]@ == k by {
                if s@.contains_key(k) {
                    if k == id@ {
                        assert(self.ids[i as int]@ == k);
                    } else {
                        assert(before.contains_key(k));
                        let j = choose|j: int| 0 <= j < i && self.ids[j]@ == k;
                        assert(0 <= j < i + 1 && self.ids[j]@ == k);
                    }
                }
                if exists|j: int| 0 <= j < i + 1 && self.ids[j]@ == k {
                    let j = choose|j: int| 0 <= j < i + 1 && self.ids[j]@ == k;
                    if j < i {
                        assert(before.contains_key(k));
                    }
                }
            }
            i = i + 1;
        }
        assert forall|k: Seq<char>| s@.contains_key(k) <==> self@.contains_key(k) by {
            if self@.contains_key(k) {
                let j = choose|j: int| 0 <= j < self.ids.len() && self.ids[j]@ == k;
                assert(0 <= j < i && self.ids[j]@ == k);
            }
            if s@.contains_key(k) {
                let j = choose|j: int| 0 <= j < i && self.ids[j]@ == k;
                assert(self.apps@.contains_key(self.ids[j]@));
            }
        }
        s
    }
}

impl Default for History {
    fn default() -> (h: Self)
        ensures
            h.wf(),
            h@ == Map::<Seq<char>, FrecencyEntry>::empty(),
            h.ids() == Seq::<Seq<char>>::empty(),
    {
        History::new()
    }
}

/// Frecency scores of applications at one instant, by application id, in
/// millionths.
pub struct FrecencyScores {
    scores: StringHashMap<u64>,
}

impl View for FrecencyScores {
    type V = Map<Seq<char>, u64>;

    closed spec fn view(&self) -> Map<Seq<char>, u64> {
        self.scores@
    }
}

impl FrecencyScores {
    /// No scores: every application scores zero.
    pub fn new() -> (s: Self)
        ensures
            s@ == Map::<Seq<char>, u64>::empty(),
    {
        FrecencyScores { scores: StringHashMap::new() }
    }

    /// Sets the score of `app_id`.
    pub fn set(&mut self, app_id: &str, score: u64)
        ensures
            final(self)@ == old(self)@.insert(app_id@, score),
    {
        self.scores.insert(app_id.to_owned(), score);
    }

    /// The score of `app_id`, zero for an application without one.
    pub fn get_score(&self, app_id: &str) -> (score: u64)
        ensures
            score == score_in(self@, app_id@),
    {
        match self.scores.get(app_id) {
            Some(s) => *s,
            None => 0,
        }
    }
}

/// Whether the factor that `decay` returns never grows with age.
pub open spec fn never_grows<F: Fn(u64) -> u32>(decay: &F) -> bool {
    forall|a: u64, b: u64, da: u32, db: u32|
        a <= b && #[trigger] decay.ensures((a,), da) && #[trigger] decay.ensures((b,), db) ==> db
            <= da
}

/// A score does not grow while time passes without a launch, whatever the
/// decay is, as long as its factor never grows with age: of two scores that
/// an entry may have, the one at the later time is not the higher one.
pub proof fn lemma_score_falls_with_time<F: Fn(u64) -> u32>(
    entry: FrecencyEntry,
    earlier: u64,
    later: u64,
    decay: &F,
    score_earlier: u64,
    score_later: u64,
)
    requires
        earlier <= later,
        never_grows(decay),
        may_score(entry, earlier, decay, score_earlier),
        may_score(entry, later, decay, score_later),
    ensures
        age_at(entry.last_accessed, earlier) <= age_at(entry.last_accessed, later),
        score_later <= score_earlier,
{
    let a1 = age_at(entry.last_accessed, earlier);
    let a2 = age_at(entry.last_accessed, later);
    let f = entry.frequency as int;
    if a2 > 0 {
        let d2 = choose|d: u32|
            decay.ensures((a2 as u64,), d) && score_later == #[trigger] decayed(
                entry.frequency,
                capped(d),
            );
        let c2 = capped(d2) as int;
        if a1 > 0 {
            let d1 = choose|d: u32|
                decay.ensures((a1 as u64,), d) && score_earlier == #[trigger] decayed(
                    entry.frequency,
                    capped(d),
                );
            let c1 = capped(d1) as int;
            assert(d2 <= d1);
            assert(f * c2 <= f * c1) by (nonlinear_arith)
                requires
                    c2 <= c1,
                    f >= 0,
            ;
        } else {
            assert(f * c2 <= f * 1_000_000) by (nonlinear_arith)
                requires
                    c2 <= 1_000_000,
                    f >= 0,
            ;
        }
    }
}

/// A launch raises the score, whatever the decay is: right after a launch at
/// `now` the entry has no age and scores its new launch count at the full
/// factor, which is more than any score that the application may have had at
/// `now` before the launch, zero where it had no entry.
pub proof fn lemma_launch_raises_score<F: Fn(u64) -> u32>(
    m: Map<Seq<char>, FrecencyEntry>,
    id: Seq<char>,
    now: u64,
    decay: &F,
    before: u64,
    after: u64,
)
    requires
        m.contains_key(id) ==> m[id].frequency < u32::MAX,
        m.contains_key(id) ==> may_score(m[id], now, decay, before),
        !m.contains_key(id) ==> before == 0,
        may_score(launched(m, id, now)[id], now, decay, after),
    ensures
        age_at(launched(m, id, now)[id].last_accessed, now) == 0,
        after == decayed(launched(m, id, now)[id].frequency, SCORE_ONE),
        after > before,
{
    if m.contains_key(id) {
        let f = m[id].frequency as int;
        let a = age_at(m[id].last_accessed, now);
        if a > 0 {
            let d = choose|d: u32|
                decay.ensures((a as u64,), d) && before == #[trigger] decayed(
                    m[id].frequency,
                    capped(d),
                );
            let c = capped(d) as int;
            assert((f + 1) * 1_000_000 > f * c) by (nonlinear_arith)
                requires
                    f >= 0,
                    0 <= c <= 1_000_000,
            ;
        } else {
            assert((f + 1) * 1_000_000 > f * 1_000_000) by (nonlinear_arith)
                requires
                    f >= 0,
            ;
        }
    }
}

/// Repeated launches add up: after a launch the count of the launched id is
/// one more than before, or one for an id that had no entry.
pub proof fn lemma_launch_counts(m: Map<Seq<char>, FrecencyEntry>, id: Seq<char>, now: u64)
    requires
        m.contains_key(id) ==> m[id].frequency < u32::MAX,
    ensures
        launched(m, id, now).contains_key(id),
        launched(m, id, now)[id].last_accessed == now,
        launched(m, id, now)[id].frequency == if m.contains_key(id) {
            m[id].frequency + 1
        } else {
            1
        },
        forall|other: Seq<char>|
            other != id ==> (launched(m, id, now).contains_key(other) <==> m.contains_key(other)),
        forall|other: Seq<char>|
            other != id && m.contains_key(other) ==> launched(m, id, now)[other] == m[other],
{
}

/// What [`history_of`] holds: the ids of the entries, each with the entry
/// that is last in the list for it.
pub proof fn lemma_history_of(entries: Seq<(String, FrecencyEntry)>)
    ensures
        forall|k: Seq<char>| #[trigger]
            history_of(entries).contains_key(k) <==> exists|i: int|
                0 <= i < entries.len() && (#[trigger] entries[i]).0@ == k,
        forall|i: int|
            0 <= i < entries.len() && (forall|j: int|
                i < j < entries.len() ==> (#[trigger] entries[j]).0@ != entries[i].0@)
                ==> history_of(entries)[(#[trigger] entries[i]).0@] == entries[i].1,
    decreases entries.len(),
{
    if entries.len() > 0 {
        let front = entries.drop_last();
        let last = entries.last();
        lemma_history_of(front);
        assert forall|k: Seq<char>| #[trigger]
            history_of(entries).contains_key(k) <==> exists|i: int|
                0 <= i < entries.len() && (#[trigger] entries[i]).0@ == k by {
            if history_of(entries).contains_key(k) {
                if k == last.0@ {
                    assert(entries[entries.len() - 1].0@ == k);
                } else {
                    assert(history_of(front).contains_key(k));
                    let i = choose|i: int| 0 <= i < front.len() && (#[trigger] front[i]).0@ == k;
                    assert(entries[i].0@ == k);
                }
            }
            if exists|i: int| 0 <= i < entries.len() && (#[trigger] entries[i]).0@ == k {
                let i = choose|i: int| 0 <= i < entries.len() && (#[trigger] entries[i]).0@ == k;
                if i < front.len() {
                    assert(front[i].0@ == k);
                    assert(history_of(front).contains_key(k));
                }
            }
        }
        assert forall|i: int|
            0 <= i < entries.len() && (forall|j: int|
                i < j < entries.len() ==> (#[trigger] entries[j]).0@
                    != entries[i].0@) implies history_of(entries)[(#[trigger] entries[i]).0@]
            == entries[i].1 by {
            if i < front.len() {
                assert(entries[entries.len() - 1].0@ != entries[i].0@);
                assert(front[i] == entries[i]);
                assert forall|j: int| i < j < front.len() implies (#[trigger] front[j]).0@
                    != front[i].0@ by {
                    assert(front[j] == entries[j]);
                }
            }
        }
    }
}

/// Writing a history out and reading it back changes nothing: a list that
/// names each id of a history once, with its entry, describes that history.
pub proof fn lemma_entries_describe_history(
    m: Map<Seq<char>, FrecencyEntry>,
    entries: Seq<(String, FrecencyEntry)>,
)
    requires
        forall|i: int|
            0 <= i < entries.len() ==> m.contains_key((#[trigger] entries[i]).0@) && m[entries[i].0@]
                == entries[i].1,
        forall|i: int, j: int|
            0 <= i < j < entries.len() ==> (#[trigger] entries[i]).0@ != (#[trigger] entries[j]).0@,
        forall|k: Seq<char>| #[trigger]
            m.contains_key(k) ==> exists|i: int|
                0 <= i < entries.len() && (#[trigger] entries[i]).0@ == k,
    ensures
        history_of(entries) == m,
{
    lemma_history_of(entries);
    let h = history_of(entries);
    assert forall|k: Seq<char>| h.contains_key(k) <==> m.contains_key(k) by {
        if h.contains_key(k) {
            let i = choose|i: int| 0 <= i < entries.len() && (#[trigger] entries[i]).0@ == k;
            assert(m.contains_key(entries[i].0@));
        }
    }
    assert forall|k: Seq<char>| h.contains_key(k) implies h[k] == m[k] by {
        let i = choose|i: int| 0 <= i < entries.len() && (#[trigger] entries[i]).0@ == k;
        assert(h[entries[i].0@] == entries[i].1);
    }
    assert(h =~= m);
}

} // verus!
