//! Catalog records: one launchable application each, the command line that
//! starts it, and the choice of the applications that make up a catalog.
//!
//! Reading desktop entries from disk is not part of this crate: callers hand
//! in what the entries say.

use crate::text::{
    chars_of, lemma_lex_irreflexive, lemma_lex_total, lemma_lex_transitive, lex_lt, lowercase,
    precedes, string_of, to_lowercase, trim_bounds, trimmed,
};
use vstd::hash_map::StringHashMap;
use vstd::prelude::*;

verus! {

/// One launchable application of the catalog.
#[derive(Debug)]
pub struct DesktopApp {
    /// Stable identifier, unique within a catalog.
    pub id: String,
    /// Name shown to the user.
    pub name: String,
    /// Command line as the desktop entry gives it, field codes included.
    pub exec_command: String,
    /// Icon name or absolute path of an icon file.
    pub icon: Option<String>,
    /// Additional search terms.
    pub keywords: Vec<String>,
    /// One-line description.
    pub description: Option<String>,
    /// Location of the desktop entry the record was read from.
    pub path: String,
}

/// What a [`DesktopApp`] holds, as plain sequences of characters.
pub struct DesktopAppView {
    pub id: Seq<char>,
    pub name: Seq<char>,
    pub exec_command: Seq<char>,
    pub icon: Option<Seq<char>>,
    pub keywords: Seq<Seq<char>>,
    pub description: Option<Seq<char>>,
    pub path: Seq<char>,
}

/// The characters of an optional string.
pub open spec fn opt_chars(s: Option<String>) -> Option<Seq<char>> {
    match s {
        Some(t) => Some(t@),
        None => None,
    }
}

/// The characters of each string of a list.
pub open spec fn list_chars(v: Seq<String>) -> Seq<Seq<char>> {
    Seq::new(v.len(), |i: int| v[i]@)
}

impl View for DesktopApp {
    type V = DesktopAppView;

    open spec fn view(&self) -> DesktopAppView {
        DesktopAppView {
            id: self.id@,
            name: self.name@,
            exec_command: self.exec_command@,
            icon: opt_chars(self.icon),
            keywords: list_chars(self.keywords@),
            description: opt_chars(self.description),
            path: self.path@,
        }
    }
}

/// A copy of an optional string.
pub fn clone_opt(s: &Option<String>) -> (r: Option<String>)
    ensures
        opt_chars(r) == opt_chars(*s),
{
    match s {
        Some(t) => Some(t.clone()),
        None => None,
    }
}

/// A copy of a list of strings.
pub fn clone_list(v: &Vec<String>) -> (r: Vec<String>)
    ensures
        list_chars(r@) == list_chars(v@),
{
    let mut r: Vec<String> = Vec::new();
    let mut i: usize = 0;
    while i < v.len()
        invariant
            i <= v.len(),
            r.len() == i,
            forall|j: int| 0 <= j < i ==> r[j]@ == v[j]@,
        decreases v.len() - i,
    {
        r.push(v[i].clone());
        i = i + 1;
    }
    assert(list_chars(r@) =~= list_chars(v@));
    r
}

impl Clone for DesktopApp {
    fn clone(&self) -> (r: Self)
        ensures
            r@ == self@,
    {
        DesktopApp {
            id: self.id.clone(),
            name: self.name.clone(),
            exec_command: self.exec_command.clone(),
            icon: clone_opt(&self.icon),
            keywords: clone_list(&self.keywords),
            description: clone_opt(&self.description),
            path: self.path.clone(),
        }
    }
}

/// The letters of the field codes that a desktop entry's command line may
/// carry, in the order in which they are removed.
pub open spec fn field_code_letters() -> Seq<char> {
    seq!['f', 'F', 'u', 'U', 'd', 'D', 'n', 'N', 'i', 'c', 'k', 'v', 'm']
}

/// `s` after one pass from the left that drops each occurrence of `%`
/// followed by `letter`. An occurrence that only forms once its neighbours
/// are dropped stays.
pub open spec fn without_code(s: Seq<char>, letter: char) -> Seq<char>
    decreases s.len(),
{
    if s.len() < 2 {
        s
    } else if s[0] == '%' && s[1] == letter {
        without_code(s.skip(2), letter)
    } else {
        seq![s[0]] + without_code(s.skip(1), letter)
    }
}

/// `s` after one pass of [`without_code`] for each of `letters`, in order.
pub open spec fn without_codes(s: Seq<char>, letters: Seq<char>) -> Seq<char>
    decreases letters.len(),
{
    if letters.len() == 0 {
        s
    } else {
        without_codes(without_code(s, letters[0]), letters.drop_first())
    }
}

/// The command line that launches an application whose entry reads `command`:
/// the field codes removed, then the white space at both ends.
pub open spec fn launch_command_of(command: Seq<char>) -> Seq<char> {
    trimmed(without_codes(command, field_code_letters()))
}

/// One pass of field-code removal over `v`.
pub fn strip_code(v: &Vec<char>, letter: char) -> (out: Vec<char>)
    ensures
        out@ == without_code(v@, letter),
{
    let mut out: Vec<char> = Vec::new();
    let mut i: usize = 0;
    assert(v@.skip(0) =~= v@);
    while i < v.len()
        invariant
            i <= v.len(),
            out@ + without_code(v@.skip(i as int), letter) == without_code(v@, letter),
        decreases v.len() - i,
    {
        let ghost rest = v@.skip(i as int);
        if i + 1 < v.len() && v[i] == '%' && v[i + 1] == letter {
            assert(rest.skip(2) =~= v@.skip(i as int + 2));
            i = i + 2;
        } else {
            assert(rest.skip(1) =~= v@.skip(i as int + 1));
            assert(without_code(rest, letter) =~= seq![v@[i as int]] + without_code(
                v@.skip(i as int + 1),
                letter,
            )) by {
                if rest.len() < 2 {
                    assert(v@.skip(i as int + 1).len() == 0);
                }
            }
            assert(out@.push(v@[i as int]) + without_code(v@.skip(i as int + 1), letter) =~= out@
                + (seq![v@[i as int]] + without_code(v@.skip(i as int + 1), letter)));
            out.push(v[i]);
            i = i + 1;
        }
    }
    assert(v@.skip(v.len() as int).len() == 0);
    assert(out@ + Seq::<char>::empty() =~= out@);
    out
}

impl DesktopApp {
    /// The command line to run: `exec_command` without its field codes (`%f`, `%F`,
    /// `%u`, `%U`, `%d`, `%D`, `%n`, `%N`, `%i`, `%c`, `%k`, `%v`, `%m`) and
    /// without white space at either end.
    pub fn launch_command(&self) -> (cmd: String)
        ensures
            cmd@ == launch_command_of(self.exec_command@),
    {
        let letters: [char; 13] = ['f', 'F', 'u', 'U', 'd', 'D', 'n', 'N', 'i', 'c', 'k', 'v', 'm'];
        assert(letters@ =~= field_code_letters());
        let mut cur: Vec<char> = chars_of(self.exec_command.as_str());
        let mut k: usize = 0;
        assert(letters@.skip(0) =~= letters@);
        while k < 13
            invariant
                k <= 13,
                letters@ == field_code_letters(),
                without_codes(cur@, letters@.skip(k as int)) == without_codes(
                    self.exec_command@,
                    field_code_letters(),
                ),
            decreases 13 - k,
        {
            assert(letters@.skip(k as int).drop_first() =~= letters@.skip(k as int + 1));
            cur = strip_code(&cur, letters[k]);
            k = k + 1;
        }
        let (start, end) = trim_bounds(&cur);
        string_of(&cur, start, end)
    }
}

/// The views of the applications of a catalog.
pub open spec fn catalog_view(s: Seq<DesktopApp>) -> Seq<DesktopAppView> {
    Seq::new(s.len(), |i: int| s[i]@)
}

/// What one desktop entry says, as far as the catalog reads it.
#[derive(Debug)]
pub struct DesktopEntryData {
    /// Name of the entry's file without its extension.
    pub id: String,
    /// The entry asks not to be shown in menus.
    pub no_display: bool,
    /// The entry counts as deleted.
    pub hidden: bool,
    /// The entry's type, `Application` for a launchable one.
    pub entry_type: Option<String>,
    pub name: Option<String>,
    pub exec_command: Option<String>,
    pub icon: Option<String>,
    pub keywords: Vec<String>,
    pub comment: Option<String>,
    /// Location of the entry's file.
    pub path: String,
}

/// What a [`DesktopEntryData`] holds, as plain values.
pub struct DesktopEntryView {
    pub id: Seq<char>,
    pub no_display: bool,
    pub hidden: bool,
    pub entry_type: Option<Seq<char>>,
    pub name: Option<Seq<char>>,
    pub exec_command: Option<Seq<char>>,
    pub icon: Option<Seq<char>>,
    pub keywords: Seq<Seq<char>>,
    pub comment: Option<Seq<char>>,
    pub path: Seq<char>,
}

impl View for DesktopEntryData {
    type V = DesktopEntryView;

    open spec fn view(&self) -> DesktopEntryView {
        DesktopEntryView {
            id: self.id@,
            no_display: self.no_display,
            hidden: self.hidden,
            entry_type: opt_chars(self.entry_type),
            name: opt_chars(self.name),
            exec_command: opt_chars(self.exec_command),
            icon: opt_chars(self.icon),
            keywords: list_chars(self.keywords@),
            comment: opt_chars(self.comment),
            path: self.path@,
        }
    }
}

/// The views of a list of entries.
pub open spec fn entries_view(s: Seq<DesktopEntryData>) -> Seq<DesktopEntryView> {
    Seq::new(s.len(), |i: int| s[i]@)
}

/// Whether an entry may stand in the catalog: it is neither hidden nor kept
/// out of menus, it is of type `Application`, and it has a name and a
/// command line.
pub open spec fn is_listed(e: DesktopEntryView) -> bool {
    &&& !e.no_display
    &&& !e.hidden
    &&& e.entry_type == Some("Application"@)
    &&& e.name is Some
    &&& e.exec_command is Some
}

/// The catalog record of a listed entry.
pub open spec fn app_of(e: DesktopEntryView) -> DesktopAppView {
    DesktopAppView {
        id: e.id,
        name: e.name->0,
        exec_command: e.exec_command->0,
        icon: e.icon,
        keywords: e.keywords,
        description: e.comment,
        path: e.path,
    }
}

/// Whether one of `apps` has the id `id`.
pub open spec fn has_id(apps: Seq<DesktopAppView>, id: Seq<char>) -> bool {
    exists|i: int| 0 <= i < apps.len() && (#[trigger] apps[i]).id == id
}

/// The records of the listed entries, in the order of the entries; of
/// several listed entries with one id the first counts.
pub open spec fn selected(entries: Seq<DesktopEntryView>) -> Seq<DesktopAppView>
    decreases entries.len(),
{
    if entries.len() == 0 {
        Seq::empty()
    } else {
        let rest = selected(entries.drop_last());
        let e = entries.last();
        if is_listed(e) && !has_id(rest, e.id) {
            rest.push(app_of(e))
        } else {
            rest
        }
    }
}

/// Whether the name of `a` comes before that of `b` when both are put in
/// lowercase.
pub open spec fn name_before(a: DesktopAppView, b: DesktopAppView) -> bool {
    lex_lt(lowercase(a.name), lowercase(b.name))
}

/// `sorted` with `x` added behind every record whose name does not come after
/// that of `x`.
pub open spec fn insert_by_name(sorted: Seq<DesktopAppView>, x: DesktopAppView) -> Seq<
    DesktopAppView,
>
    decreases sorted.len(),
{
    if sorted.len() > 0 && name_before(x, sorted.last()) {
        insert_by_name(sorted.drop_last(), x).push(sorted.last())
    } else {
        sorted.push(x)
    }
}

/// `apps` in the order of their lowercase names; records with the same
/// lowercase name keep the order they have in `apps`.
pub open spec fn sorted_by_name(apps: Seq<DesktopAppView>) -> Seq<DesktopAppView>
    decreases apps.len(),
{
    if apps.len() == 0 {
        Seq::empty()
    } else {
        insert_by_name(sorted_by_name(apps.drop_last()), apps.last())
    }
}

/// The catalog that a list of entries gives: the selected records, sorted by
/// name.
pub open spec fn catalog_of(entries: Seq<DesktopEntryView>) -> Seq<DesktopAppView> {
    sorted_by_name(selected(entries))
}

/// Decides [`is_listed`].
pub fn listed(e: &DesktopEntryData) -> (r: bool)
    ensures
        r == is_listed(e@),
{
    if e.no_display || e.hidden {
        return false;
    }
    let of_type = match &e.entry_type {
        Some(t) => {
            let wanted = "Application".to_owned();
            *t == wanted
        },
        None => false,
    };
    of_type && e.name.is_some() && e.exec_command.is_some()
}

/// The catalog record of a listed entry.
pub fn record_of(e: &DesktopEntryData) -> (app: DesktopApp)
    requires
        is_listed(e@),
    ensures
        app@ == app_of(e@),
{
    let name = match &e.name {
        Some(n) => n.clone(),
        None => String::new(),
    };
    let exec_command = match &e.exec_command {
        Some(c) => c.clone(),
        None => String::new(),
    };
    DesktopApp {
        id: e.id.clone(),
        name,
        exec_command,
        icon: clone_opt(&e.icon),
        keywords: clone_list(&e.keywords),
        description: clone_opt(&e.comment),
        path: e.path.clone(),
    }
}

/// Adds `app` to the sorted list `out`; `folds` holds the lowercase names of
/// the records of `out`.
fn place_app(out: &mut Vec<DesktopApp>, folds: &mut Vec<Vec<char>>, app: DesktopApp, fold: Vec<char>)
    requires
        old(folds).len() == old(out).len(),
        fold@ == lowercase(app@.name),
        forall|j: int|
            0 <= j < old(out).len() ==> (#[trigger] old(folds)[j])@ == lowercase(old(out)[j]@.name),
    ensures
        final(folds).len() == final(out).len(),
        forall|j: int|
            0 <= j < final(out).len() ==> (#[trigger] final(folds)[j])@ == lowercase(
                final(out)[j]@.name,
            ),
        catalog_view(final(out)@) == insert_by_name(catalog_view(old(out)@), app@),
{
    let mut p: usize = out.len();
    while p > 0 && precedes(&fold, &folds[p - 1])
        invariant
            p <= out.len(),
            folds.len() == out.len(),
            out@ == old(out)@,
            folds@ == old(folds)@,
            fold@ == lowercase(app@.name),
            forall|j: int| 0 <= j < out.len() ==> (#[trigger] folds[j])@ == lowercase(out[j]@.name),
            forall|j: int| p <= j < out.len() ==> name_before(app@, (#[trigger] out[j])@),
        decreases p,
    {
        p = p - 1;
    }
    proof {
        let s = catalog_view(out@);
        assert forall|j: int| p <= j < s.len() implies name_before(app@, #[trigger] s[j]) by {
            assert(s[j] == out[j]@);
        }
        if p > 0 {
            assert(s[p - 1] == out[p - 1]@);
        }
        lemma_insert_by_name_at(s, app@, p as int);
        assert(catalog_view(out@.insert(p as int, app)) =~= s.insert(p as int, app@));
    }
    out.insert(p, app);
    folds.insert(p, fold);
}

/// The catalog of the applications that `entries` describe: the listed
/// entries, the first of each id, sorted by their names in lowercase.
pub fn scan_applications(entries: &[DesktopEntryData]) -> (apps: Vec<DesktopApp>)
    ensures
        catalog_view(apps@) == catalog_of(entries_view(entries@)),
{
    let ghost all = entries_view(entries@);
    let mut out: Vec<DesktopApp> = Vec::new();
    let mut folds: Vec<Vec<char>> = Vec::new();
    let mut seen: StringHashMap<bool> = StringHashMap::new();
    let mut i: usize = 0;
    assert(all.take(0) =~= Seq::<DesktopEntryView>::empty());
    assert(catalog_view(out@) =~= Seq::<DesktopAppView>::empty());
    while i < entries.len()
        invariant
            i <= entries.len(),
            all == entries_view(entries@),
            catalog_view(out@) == sorted_by_name(selected(all.take(i as int))),
            folds.len() == out.len(),
            forall|j: int| 0 <= j < out.len() ==> (#[trigger] folds[j])@ == lowercase(out[j]@.name),
            forall|k: Seq<char>| seen@.contains_key(k) <==> has_id(selected(all.take(i as int)), k),
        decreases entries.len() - i,
    {
        let e = &entries[i];
        let ghost sel = selected(all.take(i as int));
        assert(all.take(i as int + 1).drop_last() =~= all.take(i as int));
        assert(all.take(i as int + 1).last() == e@);
        if listed(e) && !seen.contains_key(e.id.as_str()) {
            let app = record_of(e);
            let fold = chars_of(to_lowercase(app.name.as_str()).as_str());
            seen.insert(e.id.clone(), true);
            proof {
                let grown = sel.push(app@);
                assert(grown.drop_last() =~= sel);
                assert forall|k: Seq<char>| seen@.contains_key(k) <==> has_id(grown, k) by {
                    if has_id(grown, k) {
                        let j = choose|j: int| 0 <= j < grown.len() && (#[trigger] grown[j]).id == k;
                        if j < sel.len() {
                            assert(sel[j].id == k);
                        }
                    }
                    if has_id(sel, k) {
                        let j = choose|j: int| 0 <= j < sel.len() && (#[trigger] sel[j]).id == k;
                        assert(grown[j].id == k);
                    }
                    if k == e.id@ {
                        assert(grown[sel.len() as int].id == k);
                    }
                }
            }
            place_app(&mut out, &mut folds, app, fold);
        }
        i = i + 1;
    }
    assert(all.take(entries.len() as int) =~= all);
    out
}

/// A record is added right in front of the records at the end whose names
/// come after its own.
pub proof fn lemma_insert_by_name_at(s: Seq<DesktopAppView>, x: DesktopAppView, p: int)
    requires
        0 <= p <= s.len(),
        forall|j: int| p <= j < s.len() ==> name_before(x, #[trigger] s[j]),
        p > 0 ==> !name_before(x, s[p - 1]),
    ensures
        insert_by_name(s, x) == s.insert(p, x),
    decreases s.len(),
{
    if s.len() == 0 || p == s.len() {
        assert(s.push(x) =~= s.insert(p, x));
    } else {
        assert(name_before(x, s[s.len() - 1]));
        let front = s.drop_last();
        assert forall|j: int| p <= j < front.len() implies name_before(x, #[trigger] front[j]) by {
            assert(front[j] == s[j]);
        }
        if p > 0 {
            assert(front[p - 1] == s[p - 1]);
        }
        lemma_insert_by_name_at(front, x, p);
        assert(front.insert(p, x).push(s.last()) =~= s.insert(p, x));
    }
}

/// Where a record is put by [`insert_by_name`].
pub proof fn lemma_insert_by_name_position(s: Seq<DesktopAppView>, x: DesktopAppView) -> (p: int)
    ensures
        0 <= p <= s.len(),
        insert_by_name(s, x) == s.insert(p, x),
        forall|j: int| p <= j < s.len() ==> name_before(x, #[trigger] s[j]),
        p > 0 ==> !name_before(x, s[p - 1]),
    decreases s.len(),
{
    if s.len() > 0 && name_before(x, s.last()) {
        let front = s.drop_last();
        let p = lemma_insert_by_name_position(front, x);
        assert forall|j: int| p <= j < s.len() implies name_before(x, #[trigger] s[j]) by {
            if j < front.len() {
                assert(front[j] == s[j]);
            }
        }
        if p > 0 {
            assert(front[p - 1] == s[p - 1]);
        }
        assert(front.insert(p, x).push(s.last()) =~= s.insert(p, x));
        p
    } else {
        assert(s.push(x) =~= s.insert(s.len() as int, x));
        s.len() as int
    }
}

/// No record of the list stands behind one whose lowercase name comes after
/// its own.
pub open spec fn in_name_order(s: Seq<DesktopAppView>) -> bool {
    forall|p: int, q: int| 0 <= p < q < s.len() ==> !name_before(s[q], s[p])
}

/// Sorting by name reorders and puts in order: the sorted list holds the
/// same records, each as often as the list it was made from, and it is in
/// the order of the lowercase names.
pub proof fn lemma_sorted_by_name(apps: Seq<DesktopAppView>)
    ensures
        sorted_by_name(apps).to_multiset() == apps.to_multiset(),
        sorted_by_name(apps).len() == apps.len(),
        in_name_order(sorted_by_name(apps)),
    decreases apps.len(),
{
    if apps.len() > 0 {
        let s = sorted_by_name(apps.drop_last());
        let x = apps.last();
        lemma_sorted_by_name(apps.drop_last());
        let at = lemma_insert_by_name_position(s, x);
        let r = s.insert(at, x);
        vstd::seq_lib::to_multiset_insert(s, at, x);
        vstd::seq_lib::to_multiset_build(apps.drop_last(), x);
        assert(apps.drop_last().push(x) =~= apps);
        assert forall|p: int, q: int| 0 <= p < q < r.len() implies !name_before(r[q], r[p]) by {
            let nx = lowercase(x.name);
            if q == at {
                assert(r[p] == s[p]);
                let np = lowercase(s[p].name);
                let nm = lowercase(s[at - 1].name);
                if p < at - 1 {
                    assert(!name_before(s[at - 1], s[p]));
                    if lex_lt(nx, np) {
                        lemma_lex_total(nm, nx);
                        if lex_lt(nm, nx) {
                            lemma_lex_transitive(nm, nx, np);
                        }
                    }
                }
            } else if p == at {
                assert(r[q] == s[q - 1]);
                let nq = lowercase(s[q - 1].name);
                assert(name_before(x, s[q - 1]));
                if lex_lt(nq, nx) {
                    lemma_lex_transitive(nx, nq, nx);
                    lemma_lex_irreflexive(nx);
                }
            } else {
                let sp = if p < at {
                    p
                } else {
                    p - 1
                };
                let sq = if q < at {
                    q
                } else {
                    q - 1
                };
                assert(r[p] == s[sp] && r[q] == s[sq]);
                assert(!name_before(s[sq], s[sp]));
            }
        }
    } else {
        assert(sorted_by_name(apps) =~= apps);
    }
}

/// Selection keeps one record for each id and passes over no listed entry:
/// the ids of the selected records differ from one another, each record
/// comes from a listed entry, and the id of every listed entry is among
/// them.
pub proof fn lemma_selected(entries: Seq<DesktopEntryView>)
    ensures
        forall|i: int, j: int|
            0 <= i < j < selected(entries).len() ==> (#[trigger] selected(entries)[i]).id != (
            #[trigger] selected(entries)[j]).id,
        forall|i: int|
            0 <= i < selected(entries).len() ==> exists|k: int|
                0 <= k < entries.len() && is_listed(#[trigger] entries[k]) && app_of(entries[k])
                    == (#[trigger] selected(entries)[i]),
        forall|k: int|
            0 <= k < entries.len() && is_listed(#[trigger] entries[k]) ==> has_id(
                selected(entries),
                entries[k].id,
            ),
    decreases entries.len(),
{
    if entries.len() > 0 {
        let front = entries.drop_last();
        let rest = selected(front);
        let e = entries.last();
        let sel = selected(entries);
        lemma_selected(front);
        assert forall|i: int, j: int| 0 <= i < j < sel.len() implies (#[trigger] sel[i]).id != (
        #[trigger] sel[j]).id by {
            if j == rest.len() {
                assert(rest[i].id != e.id);
            }
        }
        assert forall|i: int| 0 <= i < sel.len() implies exists|k: int|
            0 <= k < entries.len() && is_listed(#[trigger] entries[k]) && app_of(entries[k]) == (
            #[trigger] sel[i]) by {
            if i < rest.len() {
                assert(sel[i] == rest[i]);
                let k = choose|k: int|
                    0 <= k < front.len() && is_listed(#[trigger] front[k]) && app_of(front[k])
                        == rest[i];
                assert(entries[k] == front[k]);
            } else {
                assert(entries[entries.len() - 1] == e);
            }
        }
        assert forall|k: int| 0 <= k < entries.len() && is_listed(
            #[trigger] entries[k],
        ) implies has_id(sel, entries[k].id) by {
            if k < front.len() {
                assert(front[k] == entries[k]);
                let i = choose|i: int| 0 <= i < rest.len() && (#[trigger] rest[i]).id == front[k].id;
                assert(sel[i].id == entries[k].id);
            } else if has_id(rest, e.id) {
                let i = choose|i: int| 0 <= i < rest.len() && (#[trigger] rest[i]).id == e.id;
                assert(sel[i].id == e.id);
            } else {
                assert(sel[rest.len() as int].id == e.id);
            }
        }
    }
}

} // verus!
