//! The video source configuration: what loading the file yields, and what is
//! written back when the sources are saved.
use vstd::prelude::*;
use crate::live::{copy_string, opt_view};
use crate::model::{Source, SourceConfigFile, SourceEntry, SourceEntryV, SourceV, source_views};
use crate::order::{
    entry_views, keys_increasing, lemma_map_from_exact, lemma_map_from_shape, lemma_sorted_name_key, lemma_name_key_unique, lemma_sorted_by_name_key, name_key_sorted, sorted_by_name_key, lemma_sort_map, lemma_sorted_by_name, map_from, map_insert_exec, names_sorted,
    sorted_by_name, stable_sort_by_name, text_lt,
};
use crate::text::{
    chars_of, lemma_strip_trailing_idempotent, lemma_trim_idempotent, string_of, strip_trailing, strip_trailing_vec, trim, trim_vec,
};

verus! {

broadcast use vstd::string::group_string_axioms;

/// A detail address trimmed, and dropped when blank.
pub open spec fn trimmed_detail(d: Option<Seq<char>>) -> Option<Seq<char>> {
    match d {
        Some(v) => if trim(v).len() > 0 {
            Some(trim(v))
        } else {
            None
        },
        None => None,
    }
}

pub fn trimmed_detail_exec(d: &Option<String>) -> (r: Option<String>)
    ensures
        opt_view(r) == trimmed_detail(opt_view(*d)),
{
    match d {
        Some(v) => {
            let c = chars_of(v.as_str());
            let t = trim_vec(&c);
            if t.len() > 0 {
                Some(string_of(&t))
            } else {
                None
            }
        },
        None => None,
    }
}

/// An API address without trailing slashes.
pub fn strip_slashes(api: &String) -> (r: String)
    ensures
        r@ == strip_trailing(api@, '/'),
{
    let c = chars_of(api.as_str());
    string_of(&strip_trailing_vec(&c, '/'))
}

/// The source that a configuration entry describes.
pub open spec fn source_from_entry(key: Seq<char>, e: SourceEntryV) -> SourceV {
    SourceV {
        key: key,
        name: e.name,
        api: strip_trailing(e.api, '/'),
        detail: trimmed_detail(e.detail),
        enabled: match e.enabled {
            Some(b) => b,
            None => true,
        },
    }
}

pub open spec fn entry_sources(entries: Seq<(Seq<char>, SourceEntryV)>) -> Seq<SourceV> {
    entries.map_values(|p: (Seq<char>, SourceEntryV)| source_from_entry(p.0, p.1))
}

/// The sources of the configuration file, sorted by name (entries of equal
/// name keep their key order).
pub open spec fn loaded_sources(entries: Seq<(Seq<char>, SourceEntryV)>) -> Seq<SourceV> {
    sorted_by_name(entry_sources(entries))
}

/// The sources that the configuration file lists.
pub fn load_sources(file: SourceConfigFile) -> (r: Vec<Source>)
    requires
        keys_increasing(entry_views(file.api_site@)),
    ensures
        source_views(r@) == loaded_sources(entry_views(file.api_site@)),
{
    let ghost es = entry_views(file.api_site@);
    let mut list: Vec<Source> = Vec::new();
    let mut i: usize = 0;
    while i < file.api_site.len()
        invariant
            i <= file.api_site.len(),
            es == entry_views(file.api_site@),
            source_views(list@) == entry_sources(es).take(i as int),
        decreases file.api_site.len() - i,
    {
        let (key, entry) = &file.api_site[i];
        let s = Source {
            detail: trimmed_detail_exec(&entry.detail),
            key: copy_string(key),
            name: copy_string(&entry.name),
            api: strip_slashes(&entry.api),
            enabled: match entry.enabled {
                Some(b) => b,
                None => true,
            },
        };
        proof {
            assert(es[i as int] == (key@, entry@));
            assert(s@ == source_from_entry(key@, entry@));
            assert(entry_sources(es)[i as int] == s@);
            assert(source_views(list@.push(s)) =~= source_views(list@).push(s@));
            assert(entry_sources(es).take(i + 1) =~= entry_sources(es).take(i as int).push(s@));
        }
        list.push(s);
        i += 1;
    }
    proof {
        assert(entry_sources(es).take(i as int) =~= entry_sources(es));
    }
    let sorted = stable_sort_by_name(list);
    proof {
        lemma_sort_map(list@, |x: Source| x@);
    }
    sorted
}

/// The configuration entry that is written for a source.
pub open spec fn entry_for(s: SourceV) -> SourceEntryV {
    SourceEntryV {
        api: strip_trailing(s.api, '/'),
        name: s.name,
        detail: trimmed_detail(s.detail),
        enabled: Some(s.enabled),
    }
}

/// The entries written for the sources: keyed and ordered by key, a later
/// source replacing an earlier one with the same key.
pub open spec fn saved_entries(sources: Seq<SourceV>) -> Seq<(Seq<char>, SourceEntryV)> {
    map_from(sources.map_values(|s: SourceV| (s.key, entry_for(s))))
}

/// The configuration file that saving the sources writes.
pub fn source_config_file(cache_time: u64, sources: &Vec<Source>) -> (r: SourceConfigFile)
    ensures
        r.cache_time == cache_time,
        entry_views(r.api_site@) == saved_entries(source_views(sources@)),
        keys_increasing(entry_views(r.api_site@)),
{
    let ghost pairs = source_views(sources@).map_values(|s: SourceV| (s.key, entry_for(s)));
    let mut site: Vec<(String, SourceEntry)> = Vec::new();
    let mut i: usize = 0;
    while i < sources.len()
        invariant
            i <= sources.len(),
            pairs == source_views(sources@).map_values(|s: SourceV| (s.key, entry_for(s))),
            entry_views(site@) == map_from(pairs.take(i as int)),
        decreases sources.len() - i,
    {
        let s = &sources[i];
        let entry = SourceEntry {
            api: strip_slashes(&s.api),
            name: copy_string(&s.name),
            detail: trimmed_detail_exec(&s.detail),
            enabled: Some(s.enabled),
        };
        proof {
            assert(pairs.take(i + 1).drop_last() =~= pairs.take(i as int));
            assert(pairs.take(i + 1).last() == (s@.key, entry_for(s@)));
        }
        map_insert_exec(&mut site, copy_string(&s.key), entry);
        i += 1;
    }
    proof {
        assert(pairs.take(i as int) =~= pairs);
        lemma_map_from_shape(pairs);
    }
    SourceConfigFile { cache_time, api_site: site }
}

/// A source as loading gives it: its address has no trailing slash and its
/// detail address, when there is one, is trimmed and not blank.
pub open spec fn is_loaded_form(s: SourceV) -> bool {
    s.api == strip_trailing(s.api, '/') && s.detail == trimmed_detail(s.detail)
}

/// Every source that loading gives is in loaded form.
pub proof fn law_loaded_source_form(key: Seq<char>, e: SourceEntryV)
    ensures
        is_loaded_form(source_from_entry(key, e)),
{
    lemma_strip_trailing_idempotent(e.api, '/');
    if let Some(v) = e.detail {
        lemma_trim_idempotent(v);
    }
}

/// A source in loaded form, saved and loaded again, comes back unchanged.
pub proof fn law_source_round_trip(s: SourceV)
    requires
        is_loaded_form(s),
    ensures
        source_from_entry(s.key, entry_for(s)) == s,
{
    if let Some(v) = s.detail {
        lemma_trim_idempotent(v);
    }
}

/// Loading sorts the configured sources by name and keeps every one of them.
pub proof fn law_loaded_sources_sorted(entries: Seq<(Seq<char>, SourceEntryV)>)
    ensures
        names_sorted(loaded_sources(entries)),
        loaded_sources(entries).to_multiset() == entry_sources(entries).to_multiset(),
{
    lemma_sorted_by_name(entry_sources(entries));
}

/// Saving the sources that a configuration file gave, and loading the saved
/// file, gives the same sources in the same order.
pub proof fn law_saved_sources_load_back(entries: Seq<(Seq<char>, SourceEntryV)>)
    requires
        keys_increasing(entries),
    ensures
        loaded_sources(saved_entries(loaded_sources(entries))) == loaded_sources(entries),
{
    broadcast use vstd::seq_lib::group_to_multiset_ensures;
    let m = entry_sources(entries);
    let l = sorted_by_name(m);
    lemma_sorted_by_name(m);
    let p = l.map_values(|s: SourceV| (s.key, entry_for(s)));
    let q = entries.map_values(|x: (Seq<char>, SourceEntryV)| (x.0, entry_for(source_from_entry(x.0, x.1))));
    assert forall|i: int, j: int| 0 <= i < j < q.len() implies text_lt(#[trigger] q[i].0, #[trigger] q[j].0) by {
        assert(q[i].0 == entries[i].0);
        assert(q[j].0 == entries[j].0);
    }
    assert forall|x: (Seq<char>, SourceEntryV)| p.contains(x) <==> q.contains(x) by {
        if p.contains(x) {
            let i = choose|i: int| 0 <= i < p.len() && p[i] == x;
            let s = l[i];
            assert(l.contains(s));
            assert(l.to_multiset().count(s) > 0);
            assert(m.to_multiset().count(s) > 0);
            assert(m.contains(s));
            let j = choose|j: int| 0 <= j < m.len() && m[j] == s;
            assert(q[j] == x);
        }
        if q.contains(x) {
            let j = choose|j: int| 0 <= j < q.len() && q[j] == x;
            let s = m[j];
            assert(m.contains(s));
            assert(m.to_multiset().count(s) > 0);
            assert(l.to_multiset().count(s) > 0);
            assert(l.contains(s));
            let i = choose|i: int| 0 <= i < l.len() && l[i] == s;
            assert(p[i] == x);
        }
    }
    lemma_map_from_exact(p, q);
    assert(saved_entries(l) == map_from(p)) by {
        assert(source_views(Seq::<Source>::empty()) == Seq::<SourceV>::empty());
    }
    assert forall|i: int| 0 <= i < m.len() implies #[trigger] entry_sources(q)[i] == m[i] by {
        law_loaded_source_form(entries[i].0, entries[i].1);
        law_source_round_trip(m[i]);
    }
    assert(entry_sources(q) =~= m);
}

/// A source as saving it and loading it back leave it: the address without
/// trailing slashes, the detail address trimmed and dropped when blank.
pub open spec fn source_saved_form(s: SourceV) -> SourceV {
    SourceV {
        key: s.key,
        name: s.name,
        api: strip_trailing(s.api, '/'),
        detail: trimmed_detail(s.detail),
        enabled: s.enabled,
    }
}

proof fn lemma_saved_form(s: SourceV)
    ensures
        source_from_entry(s.key, entry_for(s)) == source_saved_form(s),
{
    lemma_strip_trailing_idempotent(s.api, '/');
    if let Some(v) = s.detail {
        lemma_trim_idempotent(v);
    }
}

/// Saving any list of sources whose keys differ and loading the saved file
/// gives back exactly those sources in saved form, ordered by name and then
/// by key.
pub proof fn law_sources_save_load(ss: Seq<SourceV>)
    requires
        forall|i: int, j: int| 0 <= i < j < ss.len() ==> (#[trigger] ss[i]).key != (#[trigger] ss[j]).key,
    ensures
        name_key_sorted(loaded_sources(saved_entries(ss))),
        forall|x: SourceV| loaded_sources(saved_entries(ss)).contains(x)
            <==> ss.map_values(|s: SourceV| source_saved_form(s)).contains(x),
        loaded_sources(saved_entries(ss)) == sorted_by_name_key(ss.map_values(|s: SourceV| source_saved_form(s))),
{
    broadcast use vstd::seq_lib::group_to_multiset_ensures;
    let p = ss.map_values(|s: SourceV| (s.key, entry_for(s)));
    let m = map_from(p);
    assert(m == saved_entries(ss));
    lemma_map_from_shape(p);
    let e = entry_sources(m);
    assert forall|i: int, j: int| 0 <= i < j < e.len() implies text_lt(#[trigger] e[i].key, #[trigger] e[j].key) by {
        assert(e[i].key == m[i].0 && e[j].key == m[j].0);
    }
    lemma_sorted_name_key(e);
    lemma_sorted_by_name(e);
    let r = sorted_by_name(e);
    let f = ss.map_values(|s: SourceV| source_saved_form(s));
    assert forall|x: SourceV| r.contains(x) <==> f.contains(x) by {
        if r.contains(x) {
            assert(r.to_multiset().count(x) > 0);
            assert(e.to_multiset().count(x) > 0);
            assert(e.contains(x));
            let i = choose|i: int| 0 <= i < e.len() && e[i] == x;
            assert(m.contains(m[i]));
            assert(p.contains(m[i]));
            let j = choose|j: int| 0 <= j < p.len() && p[j] == m[i];
            lemma_saved_form(ss[j]);
            assert(f[j] == x);
        }
        if f.contains(x) {
            let j = choose|j: int| 0 <= j < f.len() && f[j] == x;
            assert(p.contains(p[j]));
            let y = choose|y: (Seq<char>, SourceEntryV)| #[trigger] m.contains(y) && y.0 == p[j].0;
            assert(p.contains(y));
            let k = choose|k: int| 0 <= k < p.len() && p[k] == y;
            if k < j {
                assert(ss[k].key != ss[j].key);
            } else if j < k {
                assert(ss[j].key != ss[k].key);
            }
            let i = choose|i: int| 0 <= i < m.len() && m[i] == y;
            lemma_saved_form(ss[j]);
            assert(e[i] == x);
            assert(e.contains(x));
            assert(e.to_multiset().count(x) > 0);
            assert(r.to_multiset().count(x) > 0);
        }
    }
    let q = sorted_by_name_key(f);
    assert forall|i: int, j: int| 0 <= i < j < f.len() implies (#[trigger] f[i]).key != (#[trigger] f[j]).key by {
        assert(f[i].key == ss[i].key && f[j].key == ss[j].key);
    }
    lemma_sorted_by_name_key(f);
    assert forall|x: SourceV| r.contains(x) <==> q.contains(x) by {
        if q.contains(x) {
            assert(q.to_multiset().count(x) > 0);
            assert(f.to_multiset().count(x) > 0);
        }
        if f.contains(x) {
            assert(f.to_multiset().count(x) > 0);
            assert(q.to_multiset().count(x) > 0);
        }
    }
    lemma_name_key_unique(r, q);
}

} // verus!
