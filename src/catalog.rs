//! The catalog of attribution entries found in a directory: which files
//! qualify, what each entry is named, and the order of the entries.
use vstd::multiset::Multiset;
use vstd::prelude::*;

use crate::text::{drop_suffix, ends_with, has_suffix, seq_le, str_le};
use crate::text::{lemma_seq_le_antisymmetric, lemma_seq_le_reflexive, lemma_seq_le_total, lemma_seq_le_transitive};

verus! {

broadcast use vstd::seq_lib::group_to_multiset_ensures;

/// An entry as plain text: its name and its content.
pub type Entry = (Seq<char>, Seq<char>);

/// The file-name ending that marks an attribution file.
pub open spec fn attribution_suffix() -> Seq<char> {
    ".attribution.txt"@
}

/// Whether a file of this name holds an attribution.
pub open spec fn is_attribution_file_name(file_name: Seq<char>) -> bool {
    has_suffix(file_name, attribution_suffix())
}

/// The entry name of an attribution file: its file name without the suffix.
pub open spec fn entry_name(file_name: Seq<char>) -> Seq<char> {
    drop_suffix(file_name, attribution_suffix().len())
}

/// The entry that a listed file (file name, content) gives, if it qualifies.
pub open spec fn entry_of_file(file: Entry) -> Option<Entry> {
    if is_attribution_file_name(file.0) {
        Some((entry_name(file.0), file.1))
    } else {
        None
    }
}

/// The entries that a directory listing of (file name, content) pairs gives,
/// in listing order.
pub open spec fn found_entries(files: Seq<Entry>) -> Seq<Entry> {
    files.filter_map(|f: Entry| entry_of_file(f))
}

/// The attribution files of a listing, in listing order.
pub open spec fn attribution_files(files: Seq<Entry>) -> Seq<Entry> {
    files.filter(|f: Entry| is_attribution_file_name(f.0))
}

/// Plain-text view of a vector of (String, String) pairs.
pub open spec fn entries_view(v: Seq<(String, String)>) -> Seq<Entry> {
    v.map_values(|e: (String, String)| (e.0@, e.1@))
}

/// Catalog order: by name, then by content.
pub open spec fn entry_le(a: Entry, b: Entry) -> bool {
    if a.0 == b.0 {
        seq_le(a.1, b.1)
    } else {
        seq_le(a.0, b.0)
    }
}

/// The entries stand in catalog order.
pub open spec fn is_sorted(s: Seq<Entry>) -> bool {
    forall|i: int, j: int| 0 <= i < j < s.len() ==> entry_le(#[trigger] s[i], #[trigger] s[j])
}

/// `catalog` is the catalog of the listing `files`: the entries that the
/// listing gives, each once, in catalog order.
pub open spec fn is_catalog_of(catalog: Seq<Entry>, files: Seq<Entry>) -> bool {
    &&& is_sorted(catalog)
    &&& catalog.to_multiset() == found_entries(files).to_multiset()
}

/// Every two entries are comparable.
pub proof fn lemma_entry_le_total(a: Entry, b: Entry)
    ensures
        entry_le(a, b) || entry_le(b, a),
{
    lemma_seq_le_total(a.0, b.0);
    lemma_seq_le_total(a.1, b.1);
}

/// Two entries that are each at most the other are equal.
pub proof fn lemma_entry_le_antisymmetric(a: Entry, b: Entry)
    requires
        entry_le(a, b),
        entry_le(b, a),
    ensures
        a == b,
{
    if a.0 == b.0 {
        lemma_seq_le_antisymmetric(a.1, b.1);
    } else {
        lemma_seq_le_antisymmetric(a.0, b.0);
    }
}

/// Catalog order is transitive.
pub proof fn lemma_entry_le_transitive(a: Entry, b: Entry, c: Entry)
    requires
        entry_le(a, b),
        entry_le(b, c),
    ensures
        entry_le(a, c),
{
    if a.0 == b.0 && b.0 == c.0 {
        lemma_seq_le_transitive(a.1, b.1, c.1);
    } else if a.0 != b.0 && b.0 != c.0 {
        lemma_seq_le_transitive(a.0, b.0, c.0);
        if a.0 == c.0 {
            lemma_seq_le_antisymmetric(a.0, b.0);
        }
    }
}

/// Inserting `x` before the first element that is not below it keeps a
/// sorted sequence sorted.
proof fn lemma_insert_keeps_sorted(s: Seq<Entry>, j: int, x: Entry)
    requires
        is_sorted(s),
        0 <= j <= s.len(),
        forall|k: int| 0 <= k < j ==> !entry_le(x, #[trigger] s[k]),
        j < s.len() ==> entry_le(x, s[j]),
    ensures
        is_sorted(s.insert(j, x)),
{
    let t = s.insert(j, x);
    assert forall|a: int, b: int| 0 <= a < b < t.len() implies entry_le(#[trigger] t[a], #[trigger] t[b]) by {
        if a < j && b == j {
            lemma_entry_le_total(x, s[a]);
        } else if a == j && b > j {
            if b - 1 > j {
                lemma_entry_le_transitive(x, s[j], s[b - 1]);
            }
        } else if a < j && b > j {
            assert(entry_le(s[a], s[b - 1]));
        } else if a > j {
            assert(entry_le(s[a - 1], s[b - 1]));
        }
    }
}

/// The catalog of a listing has one entry for each attribution file in it,
/// whatever else the listing holds.
pub proof fn lemma_catalog_counts_attribution_files(catalog: Seq<Entry>, files: Seq<Entry>)
    requires
        is_catalog_of(catalog, files),
    ensures
        catalog.len() == attribution_files(files).len(),
{
    lemma_found_len(files);
    assert(catalog.to_multiset().len() == found_entries(files).to_multiset().len());
}

proof fn lemma_found_len(files: Seq<Entry>)
    ensures
        found_entries(files).len() == attribution_files(files).len(),
    decreases files.len(),
{
    if files.len() > 0 {
        lemma_found_len(files.drop_last());
        lemma_found_step(files);
    }
}

/// The names of a catalog ascend: each is at most the next.
pub proof fn lemma_catalog_names_ascending(catalog: Seq<Entry>, files: Seq<Entry>)
    requires
        is_catalog_of(catalog, files),
    ensures
        forall|i: int| 0 <= i < catalog.len() - 1 ==> seq_le(#[trigger] catalog[i].0, catalog[i + 1].0),
{
    assert forall|i: int| 0 <= i < catalog.len() - 1 implies seq_le(#[trigger] catalog[i].0, catalog[i + 1].0) by {
        assert(entry_le(catalog[i], catalog[i + 1]));
        if catalog[i].0 == catalog[i + 1].0 {
            lemma_seq_le_reflexive(catalog[i].0);
        }
    }
}

/// The catalog depends on which files a directory holds, not on the order in
/// which the listing gives them: two scans of an unchanged directory agree.
pub proof fn lemma_catalog_independent_of_listing_order(
    c1: Seq<Entry>,
    c2: Seq<Entry>,
    files1: Seq<Entry>,
    files2: Seq<Entry>,
)
    requires
        is_catalog_of(c1, files1),
        is_catalog_of(c2, files2),
        files1.to_multiset() == files2.to_multiset(),
    ensures
        c1 == c2,
{
    lemma_found_depends_on_multiset(files1, files2);
    lemma_sorted_unique(c1, c2);
}

/// One unfolding of `found_entries` and `attribution_files` at the last file.
proof fn lemma_found_step(s: Seq<Entry>)
    requires
        s.len() > 0,
    ensures
        found_entries(s) == match entry_of_file(s.last()) {
            Some(e) => found_entries(s.drop_last()).push(e),
            None => found_entries(s.drop_last()),
        },
        attribution_files(s) == if is_attribution_file_name(s.last().0) {
            attribution_files(s.drop_last()).push(s.last())
        } else {
            attribution_files(s.drop_last())
        },
{
    reveal(Seq::filter);
    match entry_of_file(s.last()) {
        Some(e) => {
            assert(found_entries(s) =~= found_entries(s.drop_last()).push(e));
        },
        None => {},
    }
}

/// What removing one file from a listing takes from the entries it gives.
proof fn lemma_found_remove(s: Seq<Entry>, i: int)
    requires
        0 <= i < s.len(),
    ensures
        found_entries(s).to_multiset() == match entry_of_file(s[i]) {
            Some(e) => found_entries(s.remove(i)).to_multiset().insert(e),
            None => found_entries(s.remove(i)).to_multiset(),
        },
    decreases s.len(),
{
    lemma_found_step(s);
    if i == s.len() - 1 {
        assert(s.remove(i) =~= s.drop_last());
    } else {
        lemma_found_remove(s.drop_last(), i);
        assert(s.remove(i).drop_last() =~= s.drop_last().remove(i));
        assert(s.remove(i).last() == s.last());
        lemma_found_step(s.remove(i));
        match entry_of_file(s[i]) {
            Some(e) => {
                assert(found_entries(s.drop_last()).to_multiset() == found_entries(s.drop_last().remove(i)).to_multiset().insert(e));
            },
            None => {},
        }
        match entry_of_file(s.last()) {
            Some(e) => {
                assert(found_entries(s).to_multiset() == found_entries(s.drop_last()).to_multiset().insert(e));
                assert(found_entries(s.remove(i)).to_multiset() == found_entries(s.drop_last().remove(i)).to_multiset().insert(e));
            },
            None => {},
        }
    }
}

/// Listings that hold the same files give the same entries, up to order.
proof fn lemma_found_depends_on_multiset(f1: Seq<Entry>, f2: Seq<Entry>)
    requires
        f1.to_multiset() == f2.to_multiset(),
    ensures
        found_entries(f1).to_multiset() == found_entries(f2).to_multiset(),
    decreases f1.len(),
{
    assert(f1.to_multiset().len() == f1.len());
    assert(f2.to_multiset().len() == f2.len());
    if f1.len() == 0 {
        assert(f2.len() == 0);
        assert(f2 =~= f1);
    } else {
        let x = f1.last();
        assert(f1.to_multiset().count(x) > 0) by {
            assert(f1[f1.len() - 1] == x);
            assert(f1.contains(x));
        }
        assert(f2.contains(x));
        let i = f2.index_of(x);
        assert(f1.drop_last().to_multiset() == f2.remove(i).to_multiset()) by {
            assert(f1 =~= f1.drop_last().push(x));
            assert(f1.to_multiset() == f1.drop_last().to_multiset().insert(x));
            assert(f2.remove(i).to_multiset() == f2.to_multiset().remove(x));
            assert(f1.drop_last().to_multiset() =~= f1.to_multiset().remove(x));
        }
        lemma_found_depends_on_multiset(f1.drop_last(), f2.remove(i));
        lemma_found_remove(f2, i);
        lemma_found_remove(f1, f1.len() - 1);
        assert(f1.remove(f1.len() - 1) =~= f1.drop_last());
    }
}

/// Two sorted sequences that hold the same entries are equal.
proof fn lemma_sorted_unique(a: Seq<Entry>, b: Seq<Entry>)
    requires
        is_sorted(a),
        is_sorted(b),
        a.to_multiset() == b.to_multiset(),
    ensures
        a == b,
    decreases a.len(),
{
    if a.len() == 0 {
        assert(b.len() == 0);
        assert(a =~= b);
    } else {
        assert(a.to_multiset().len() == a.len());
        assert(b.to_multiset().len() == b.len());
        assert(a.contains(a[0]));
        assert(b.contains(b[0]));
        assert(b.to_multiset().count(a[0]) > 0);
        assert(a.to_multiset().count(b[0]) > 0);
        let k = b.index_of(a[0]);
        let m = a.index_of(b[0]);
        if k > 0 {
            assert(entry_le(b[0], b[k]));
        } else {
            lemma_entry_le_total(b[0], a[0]);
        }
        if m > 0 {
            assert(entry_le(a[0], a[m]));
        } else {
            lemma_entry_le_total(b[0], a[0]);
        }
        lemma_entry_le_antisymmetric(a[0], b[0]);
        assert(a.drop_first() =~= a.remove(0));
        assert(b.drop_first() =~= b.remove(0));
        assert(is_sorted(a.drop_first()));
        assert(is_sorted(b.drop_first()));
        lemma_sorted_unique(a.drop_first(), b.drop_first());
        assert(a =~= seq![a[0]] + a.drop_first());
        assert(b =~= seq![b[0]] + b.drop_first());
    }
}

/// Whether `a` comes no later than `b` in catalog order.
fn entry_le_exec(a: &(String, String), b: &(String, String)) -> (r: bool)
    ensures
        r == entry_le((a.0@, a.1@), (b.0@, b.1@)),
{
    if a.0 == b.0 {
        str_le(a.1.as_str(), b.1.as_str())
    } else {
        str_le(a.0.as_str(), b.0.as_str())
    }
}

/// Whether a file of this name holds an attribution.
pub fn is_attribution_file(file_name: &str) -> (r: bool)
    ensures
        r == is_attribution_file_name(file_name@),
{
    ends_with(file_name, ".attribution.txt")
}

/// The entry name of a file: its name without the attribution suffix, or
/// `None` where the file is not an attribution file.
pub fn attribution_name(file_name: &str) -> (r: Option<String>)
    ensures
        r is Some <==> is_attribution_file_name(file_name@),
        r is Some ==> r->0@ == entry_name(file_name@),
{
    if !is_attribution_file(file_name) {
        return None;
    }
    let n = file_name.unicode_len();
    let m = ".attribution.txt".unicode_len();
    let name = file_name.substring_char(0, n - m);
    Some(name.to_owned())
}

/// Builds the catalog from a directory listing of (file name, content)
/// pairs, given in any order: non-attribution files are skipped, each
/// attribution file becomes an entry named without the suffix, and the
/// entries are sorted by name, then content.
pub fn catalog_from_files(files: Vec<(String, String)>) -> (r: Vec<(String, String)>)
    ensures
        is_catalog_of(entries_view(r@), entries_view(files@)),
{
    let ghost all = entries_view(files@);
    let mut rest = files;
    let mut out: Vec<(String, String)> = Vec::new();
    while rest.len() > 0
        invariant
            is_sorted(entries_view(out@)),
            entries_view(out@).to_multiset().add(found_entries(entries_view(rest@)).to_multiset())
                == found_entries(all).to_multiset(),
        decreases rest.len(),
    {
        let ghost before = entries_view(rest@);
        let file = rest.pop().unwrap();
        proof {
            assert(entries_view(rest@) =~= before.drop_last());
        }
        match attribution_name(file.0.as_str()) {
            None => {},
            Some(name) => {
                let entry = (name, file.1);
                let mut j: usize = 0;
                while j < out.len() && !entry_le_exec(&entry, &out[j])
                    invariant
                        j <= out.len(),
                        forall|k: int| 0 <= k < j ==> !entry_le((entry.0@, entry.1@), #[trigger] entries_view(out@)[k]),
                    decreases out.len() - j,
                {
                    j = j + 1;
                }
                let ghost ev = (entry.0@, entry.1@);
                let ghost old_view = entries_view(out@);
                proof {
                    lemma_insert_keeps_sorted(old_view, j as int, ev);
                }
                out.insert(j, entry);
                proof {
                    assert(entries_view(out@) =~= old_view.insert(j as int, ev));
                    assert(found_entries(before) =~= found_entries(entries_view(rest@)).push(ev));
                }
            },
        }
    }
    proof {
        assert(found_entries(entries_view(rest@)) =~= Seq::<Entry>::empty());
        assert(found_entries(entries_view(rest@)).to_multiset() =~= Multiset::empty());
        assert(entries_view(out@).to_multiset().add(Multiset::empty()) =~= entries_view(out@).to_multiset());
        assert(all == entries_view(files@));
    }
    out
}

} // verus!
