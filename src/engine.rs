//! The selection engine: the current directory, its catalog, the set of
//! ticked entry names, and the text that the ticked entries render to.
use vstd::prelude::*;

use crate::text::str_eq;
use crate::catalog::{Entry, catalog_from_files, entries_view, is_catalog_of, is_sorted};

verus! {

broadcast use vstd::seq_lib::group_seq_properties;

/// The engine's state as plain values.
pub struct AppView {
    /// The directory last entered, valid or not.
    pub location: Option<Seq<char>>,
    /// The last catalog that a scan produced.
    pub catalog: Seq<Entry>,
    /// Names of the ticked entries.
    pub ticked: Set<Seq<char>>,
    /// The directory to remember across runs: the last one that scanned.
    pub preference: Option<Seq<char>>,
}

/// The separator between two rendered entries: one blank line.
pub open spec fn separator() -> Seq<char> {
    "\n\n"@
}

/// The contents of the catalog entries whose names are ticked, in catalog order.
pub open spec fn ticked_contents(catalog: Seq<Entry>, ticked: Set<Seq<char>>) -> Seq<Seq<char>> {
    catalog.filter_map(|e: Entry| if ticked.contains(e.0) { Some(e.1) } else { None })
}

/// `parts` joined with `sep` between each two consecutive parts.
pub open spec fn join(parts: Seq<Seq<char>>, sep: Seq<char>) -> Seq<char>
    decreases parts.len(),
{
    if parts.len() == 0 {
        Seq::empty()
    } else if parts.len() == 1 {
        parts[0]
    } else {
        join(parts.drop_last(), sep) + sep + parts.last()
    }
}

/// The aggregated text of a catalog under a selection.
pub open spec fn rendered(catalog: Seq<Entry>, ticked: Set<Seq<char>>) -> Seq<char> {
    join(ticked_contents(catalog, ticked), separator())
}

/// The state at start-up, given the remembered directory and the catalog
/// that scanning it gave (`None` where there was none or the scan failed).
pub open spec fn started(preference: Option<Seq<char>>, catalog: Option<Seq<Entry>>) -> AppView {
    AppView {
        location: preference,
        catalog: match catalog {
            Some(c) => c,
            None => Seq::empty(),
        },
        ticked: Set::empty(),
        preference: preference,
    }
}

/// The state after entering directory `path`, whose scan gave `catalog`
/// (`None` where the scan failed).
pub open spec fn directory_set(v: AppView, path: Seq<char>, catalog: Option<Seq<Entry>>) -> AppView {
    match catalog {
        Some(c) => AppView { location: Some(path), catalog: c, ticked: v.ticked, preference: Some(path) },
        None => AppView { location: Some(path), ..v },
    }
}

/// The state after the entry at `index` was ticked (`on`) or unticked; an
/// index past the catalog leaves the state as it is.
pub open spec fn toggled(v: AppView, index: int, on: bool) -> AppView {
    if 0 <= index < v.catalog.len() {
        let name = v.catalog[index].0;
        AppView { ticked: if on { v.ticked.insert(name) } else { v.ticked.remove(name) }, ..v }
    } else {
        v
    }
}

/// With nothing ticked, the aggregated text is empty.
pub proof fn lemma_nothing_ticked_renders_empty(catalog: Seq<Entry>)
    ensures
        rendered(catalog, Set::empty()) == Seq::<char>::empty(),
{
    lemma_nothing_ticked_has_no_contents(catalog);
}

proof fn lemma_nothing_ticked_has_no_contents(catalog: Seq<Entry>)
    ensures
        ticked_contents(catalog, Set::empty()).len() == 0,
    decreases catalog.len(),
{
    if catalog.len() > 0 {
        lemma_nothing_ticked_has_no_contents(catalog.drop_last());
    }
}

/// Ticking an entry that was not ticked and then unticking it restores the
/// state, and so the aggregated text.
pub proof fn lemma_tick_then_untick_restores(v: AppView, index: int)
    requires
        0 <= index < v.catalog.len(),
        !v.ticked.contains(v.catalog[index].0),
    ensures
        toggled(toggled(v, index, true), index, false) == v,
        rendered(toggled(toggled(v, index, true), index, false).catalog,
            toggled(toggled(v, index, true), index, false).ticked) == rendered(v.catalog, v.ticked),
{
    assert(v.ticked.insert(v.catalog[index].0).remove(v.catalog[index].0) =~= v.ticked);
}

/// The remembered directory is the last one that scanned: after a
/// successful change to `good` and a failed one to `bad`, a restart from the
/// remembered directory comes back at `good`.
pub proof fn lemma_restart_returns_to_last_scanned(
    v: AppView,
    good: Seq<char>,
    good_catalog: Seq<Entry>,
    bad: Seq<char>,
    restart_catalog: Option<Seq<Entry>>,
)
    ensures
        directory_set(directory_set(v, good, Some(good_catalog)), bad, None).preference == Some(good),
        started(directory_set(directory_set(v, good, Some(good_catalog)), bad, None).preference,
            restart_catalog).location == Some(good),
{
}

/// Plain-text view of an optional string.
pub open spec fn opt_view(o: Option<String>) -> Option<Seq<char>> {
    match o {
        Some(s) => Some(s@),
        None => None,
    }
}

/// Plain-text view of a vector of names.
pub open spec fn names_view(v: Seq<String>) -> Seq<Seq<char>> {
    v.map_values(|s: String| s@)
}

/// The application state that the user interface reads and drives.
pub struct App {
    location: Option<String>,
    attribution_options: Vec<(String, String)>,
    attributions_ticked: Vec<String>,
    preference: Option<String>,
}

impl App {
    /// The state as plain values.
    pub closed spec fn view(&self) -> AppView {
        AppView {
            location: opt_view(self.location),
            catalog: entries_view(self.attribution_options@),
            ticked: names_view(self.attributions_ticked@).to_set(),
            preference: opt_view(self.preference),
        }
    }

    /// The catalog is sorted and each ticked name is held once.
    pub closed spec fn wf(&self) -> bool {
        &&& is_sorted(entries_view(self.attribution_options@))
        &&& names_view(self.attributions_ticked@).no_duplicates()
    }

    /// Starts with the remembered directory `preference` and the files that
    /// scanning it found (`None` where there was no directory or the scan failed).
    pub fn new(preference: Option<String>, files: Option<Vec<(String, String)>>) -> (r: App)
        ensures
            r.wf(),
            files is None ==> r.view() == started(opt_view(preference), None),
            files is Some ==> r.view() == started(opt_view(preference), Some(r.view().catalog)),
            files is Some ==> is_catalog_of(r.view().catalog, entries_view(files->0@)),
    {
        let attribution_options = match files {
            Some(f) => catalog_from_files(f),
            None => Vec::new(),
        };
        let location = match &preference {
            Some(p) => Some(p.clone()),
            None => None,
        };
        let r = App { location, attribution_options, attributions_ticked: Vec::new(), preference };
        proof {
            assert(names_view(r.attributions_ticked@).to_set() =~= Set::empty());
            assert(files is None ==> entries_view(r.attribution_options@) =~= Seq::empty());
        }
        r
    }

    /// Enters directory `path`, whose scan found `files` (`None` where the
    /// scan failed). On success the catalog is rebuilt and the directory is
    /// remembered; the result is then the directory to persist. On failure
    /// the catalog stays as it was and nothing is persisted. The ticked names
    /// are kept either way.
    pub fn set_directory(&mut self, path: String, files: Option<Vec<(String, String)>>) -> (saved: Option<String>)
        requires
            old(self).wf(),
        ensures
            final(self).wf(),
            files is None ==> final(self).view() == directory_set(old(self).view(), path@, None),
            files is Some ==> final(self).view() == directory_set(old(self).view(), path@, Some(final(self).view().catalog)),
            files is Some ==> is_catalog_of(final(self).view().catalog, entries_view(files->0@)),
            opt_view(saved) == (if files is Some { Some(path@) } else { None::<Seq<char>> }),
    {
        match files {
            Some(f) => {
                self.attribution_options = catalog_from_files(f);
                self.preference = Some(path.clone());
                self.location = Some(path.clone());
                Some(path)
            },
            None => {
                self.location = Some(path);
                None
            },
        }
    }

    /// Where `name` stands among the ticked names.
    fn ticked_position(&self, name: &str) -> (r: Option<usize>)
        ensures
            r is None ==> !names_view(self.attributions_ticked@).contains(name@),
            r is Some ==> r->0 < self.attributions_ticked@.len()
                && names_view(self.attributions_ticked@)[r->0 as int] == name@,
    {
        let mut i: usize = 0;
        while i < self.attributions_ticked.len()
            invariant
                i <= self.attributions_ticked.len(),
                forall|k: int| 0 <= k < i ==> #[trigger] names_view(self.attributions_ticked@)[k] != name@,
            decreases self.attributions_ticked.len() - i,
        {
            if str_eq(self.attributions_ticked[i].as_str(), name) {
                return Some(i);
            }
            i = i + 1;
        }
        None
    }

    /// Whether `name` is ticked.
    pub fn is_ticked(&self, name: &str) -> (r: bool)
        ensures
            r == self.view().ticked.contains(name@),
    {
        self.ticked_position(name).is_some()
    }

    /// Ticks (`on`) or unticks the entry at `index` of the current catalog.
    /// An index past the catalog, as a stale user interface may send after
    /// the catalog was replaced, changes nothing; the result tells whether
    /// the index was in range.
    pub fn toggle(&mut self, index: usize, on: bool) -> (applied: bool)
        requires
            old(self).wf(),
        ensures
            final(self).wf(),
            applied == (index < old(self).view().catalog.len()),
            final(self).view() == toggled(old(self).view(), index as int, on),
    {
        if index >= self.attribution_options.len() {
            return false;
        }
        let ghost names = names_view(self.attributions_ticked@);
        let name = self.attribution_options[index].0.clone();
        assert(name@ == old(self).view().catalog[index as int].0);
        let pos = self.ticked_position(name.as_str());
        if on {
            if pos.is_none() {
                self.attributions_ticked.push(name);
                proof {
                    assert(names_view(self.attributions_ticked@) =~= names.push(name@));
                    assert(names.push(name@).to_set() =~= names.to_set().insert(name@));
                }
            } else {
                proof {
                    let j = pos->0 as int;
                    assert(names.to_set().contains(names[j]));
                    assert(names.to_set() =~= names.to_set().insert(name@));
                }
            }
        } else {
            match pos {
                Some(j) => {
                    self.attributions_ticked.remove(j);
                    proof {
                        let after = names_view(self.attributions_ticked@);
                        assert(after =~= names.remove(j as int));
                        assert(after.to_set() =~= names.to_set().remove(name@)) by {
                            assert forall|x: Seq<char>| after.to_set().contains(x) <==> names.to_set().remove(name@).contains(x) by {
                                if after.contains(x) {
                                    let k = after.index_of(x);
                                    if k < j {
                                        assert(names[k] == x);
                                    } else {
                                        assert(names[k + 1] == x);
                                    }
                                }
                                if x != name@ && names.contains(x) {
                                    let k = names.index_of(x);
                                    if k < j {
                                        assert(after[k] == x);
                                    } else {
                                        assert(after[k - 1] == x);
                                    }
                                }
                            }
                        }
                    }
                },
                None => {
                    proof {
                        assert(names.to_set() =~= names.to_set().remove(name@));
                    }
                },
            }
        }
        true
    }

    /// The contents of the ticked entries, in catalog order, with one blank
    /// line between each two. Ticked names that the catalog lacks add nothing.
    pub fn attribution_text(&self) -> (r: String)
        ensures
            r@ == rendered(self.view().catalog, self.view().ticked),
    {
        let ghost catalog = self.view().catalog;
        let ghost ticked = self.view().ticked;
        let mut out = String::new();
        let mut any = false;
        let mut i: usize = 0;
        while i < self.attribution_options.len()
            invariant
                i <= self.attribution_options.len(),
                catalog == entries_view(self.attribution_options@),
                ticked == self.view().ticked,
                out@ == join(ticked_contents(catalog.take(i as int), ticked), separator()),
                any == (ticked_contents(catalog.take(i as int), ticked).len() > 0),
            decreases self.attribution_options.len() - i,
        {
            let ghost parts = ticked_contents(catalog.take(i as int), ticked);
            let entry = &self.attribution_options[i];
            assert(catalog.take(i + 1).drop_last() =~= catalog.take(i as int));
            if self.is_ticked(entry.0.as_str()) {
                if any {
                    out.append("\n\n");
                }
                out.append(entry.1.as_str());
                any = true;
                proof {
                    let more = ticked_contents(catalog.take(i + 1), ticked);
                    assert(more =~= parts + seq![entry.1@]);
                    assert(more.drop_last() =~= parts);
                }
            }
            i = i + 1;
        }
        assert(catalog.take(i as int) =~= catalog);
        out
    }

    /// The directory last entered.
    pub fn location(&self) -> (r: &Option<String>)
        ensures
            opt_view(*r) == self.view().location,
    {
        &self.location
    }

    /// The directory to remember across runs.
    pub fn preference(&self) -> (r: &Option<String>)
        ensures
            opt_view(*r) == self.view().preference,
    {
        &self.preference
    }

    /// The current catalog of (name, content) entries.
    pub fn catalog(&self) -> (r: &Vec<(String, String)>)
        ensures
            entries_view(r@) == self.view().catalog,
    {
        &self.attribution_options
    }
}

} // verus!
