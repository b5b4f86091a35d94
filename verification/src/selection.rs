//! Editing and choosing sources: normalizing what the user submits,
//! validating it, merging imported live sources, and choosing the source to
//! play from.
use vstd::prelude::*;
use crate::config::{strip_slashes, trimmed_detail, trimmed_detail_exec};
use crate::live::{LiveSource, LiveSourceV, copy_string, live_source_views, opt_view};
use crate::model::{Source, SourceV, source_views};
use crate::order::{sorted_by_name, stable_sort_by_name, lemma_sort_map};
use crate::text::{chars_of, string_of, strip_trailing, trim, trim_end, trim_start, trim_vec};

verus! {

broadcast use vstd::string::group_string_axioms;

pub open spec fn is_key_char(c: char) -> bool {
    ('0' <= c && c <= '9') || ('A' <= c && c <= 'Z') || ('a' <= c && c <= 'z') || c == '_' || c == '-'
}

pub open spec fn key_chars(s: Seq<char>) -> Seq<char>
    decreases s.len(),
{
    if s.len() == 0 {
        seq![]
    } else if is_key_char(s.last()) {
        key_chars(s.drop_last()).push(s.last())
    } else {
        key_chars(s.drop_last())
    }
}

/// A source key as entered: trimmed, keeping only ASCII letters, digits, `_` and `-`.
pub open spec fn normalized_key(s: Seq<char>) -> Seq<char> {
    key_chars(trim(s))
}

pub fn normalize_source_key(value: &str) -> (r: String)
    ensures
        r@ == normalized_key(value@),
{
    let c = chars_of(value);
    let t = trim_vec(&c);
    let mut out: Vec<char> = Vec::new();
    let mut i: usize = 0;
    while i < t.len()
        invariant
            i <= t.len(),
            out@ == key_chars(t@.take(i as int)),
        decreases t.len() - i,
    {
        let ch = t[i];
        proof {
            assert(t@.take(i + 1).drop_last() =~= t@.take(i as int));
            assert(t@.take(i + 1).last() == ch);
        }
        if ('0' <= ch && ch <= '9') || ('A' <= ch && ch <= 'Z') || ('a' <= ch && ch <= 'z') || ch == '_' || ch == '-' {
            out.push(ch);
        }
        i += 1;
    }
    assert(t@.take(t.len() as int) =~= t@);
    string_of(&out)
}

/// A submitted source normalized: key normalized, name trimmed, address
/// trimmed without trailing slashes, detail trimmed and dropped when blank.
pub open spec fn normalized_source(s: SourceV) -> SourceV {
    SourceV {
        key: normalized_key(s.key),
        name: trim(s.name),
        api: strip_trailing(trim(s.api), '/'),
        detail: trimmed_detail(s.detail),
        enabled: s.enabled,
    }
}

pub open spec fn complete_source(s: SourceV) -> bool {
    s.key.len() > 0 && s.name.len() > 0 && s.api.len() > 0
}

/// The submitted sources normalized, without those left with an empty key, name or address.
pub open spec fn normalized_sources(s: Seq<SourceV>) -> Seq<SourceV>
    decreases s.len(),
{
    if s.len() == 0 {
        seq![]
    } else {
        let n = normalized_source(s.last());
        if complete_source(n) {
            normalized_sources(s.drop_last()).push(n)
        } else {
            normalized_sources(s.drop_last())
        }
    }
}

fn trim_string(s: &String) -> (r: String)
    ensures
        r@ == trim(s@),
{
    string_of(&trim_vec(&chars_of(s.as_str())))
}

pub fn normalize_sources(sources: Vec<Source>) -> (r: Vec<Source>)
    ensures
        source_views(r@) == normalized_sources(source_views(sources@)),
{
    let ghost S = source_views(sources@);
    let mut r: Vec<Source> = Vec::new();
    let mut i: usize = 0;
    while i < sources.len()
        invariant
            i <= sources.len(),
            S == source_views(sources@),
            source_views(r@) == normalized_sources(S.take(i as int)),
        decreases sources.len() - i,
    {
        proof {
            assert(S.take(i + 1).drop_last() =~= S.take(i as int));
            assert(S.take(i + 1).last() == sources@[i as int]@);
        }
        let s = &sources[i];
        let api = trim_string(&s.api);
        let n = Source {
            key: normalize_source_key(s.key.as_str()),
            name: trim_string(&s.name),
            api: strip_slashes(&api),
            detail: trimmed_detail_exec(&s.detail),
            enabled: s.enabled,
        };
        if !n.key.as_str().is_empty() && !n.name.as_str().is_empty() && !n.api.as_str().is_empty() {
            proof {
                assert(source_views(r@.push(n)) =~= source_views(r@).push(n@));
            }
            r.push(n);
        }
        i += 1;
    }
    assert(S.take(sources.len() as int) =~= S);
    r
}

/// A submitted live source normalized: key normalized, name, address, user
/// agent and guide address trimmed (the last two dropped when blank).
pub open spec fn normalized_live_source(s: LiveSourceV) -> LiveSourceV {
    LiveSourceV {
        key: normalized_key(s.key),
        name: trim(s.name),
        url: trim(s.url),
        ua: trimmed_detail(s.ua),
        epg: trimmed_detail(s.epg),
        enabled: s.enabled,
    }
}

pub open spec fn complete_live_source(s: LiveSourceV) -> bool {
    s.key.len() > 0 && s.name.len() > 0 && s.url.len() > 0
}

/// The submitted live sources normalized, without those left with an empty key, name or address.
pub open spec fn normalized_live_sources(s: Seq<LiveSourceV>) -> Seq<LiveSourceV>
    decreases s.len(),
{
    if s.len() == 0 {
        seq![]
    } else {
        let n = normalized_live_source(s.last());
        if complete_live_source(n) {
            normalized_live_sources(s.drop_last()).push(n)
        } else {
            normalized_live_sources(s.drop_last())
        }
    }
}

pub fn normalize_live_sources(sources: Vec<LiveSource>) -> (r: Vec<LiveSource>)
    ensures
        live_source_views(r@) == normalized_live_sources(live_source_views(sources@)),
{
    let ghost S = live_source_views(sources@);
    let mut r: Vec<LiveSource> = Vec::new();
    let mut i: usize = 0;
    while i < sources.len()
        invariant
            i <= sources.len(),
            S == live_source_views(sources@),
            live_source_views(r@) == normalized_live_sources(S.take(i as int)),
        decreases sources.len() - i,
    {
        proof {
            assert(S.take(i + 1).drop_last() =~= S.take(i as int));
            assert(S.take(i + 1).last() == sources@[i as int]@);
        }
        let s = &sources[i];
        let n = LiveSource {
            key: normalize_source_key(s.key.as_str()),
            name: trim_string(&s.name),
            url: trim_string(&s.url),
            ua: trimmed_detail_exec(&s.ua),
            epg: trimmed_detail_exec(&s.epg),
            enabled: s.enabled,
        };
        if !n.key.as_str().is_empty() && !n.name.as_str().is_empty() && !n.url.as_str().is_empty() {
            proof {
                assert(live_source_views(r@.push(n)) =~= live_source_views(r@).push(n@));
            }
            r.push(n);
        }
        i += 1;
    }
    assert(S.take(sources.len() as int) =~= S);
    r
}

// ---------------------------------------------------------------- keys

/// Sources as keys and enabled flags.
pub trait Keyed {
    spec fn key_of(&self) -> Seq<char>;

    spec fn enabled_of(&self) -> bool;

    fn key_str(&self) -> (r: &str)
        ensures
            r@ == self.key_of(),
    ;

    fn is_enabled(&self) -> (r: bool)
        ensures
            r == self.enabled_of(),
    ;
}

impl Keyed for Source {
    open spec fn key_of(&self) -> Seq<char> {
        self.key@
    }

    open spec fn enabled_of(&self) -> bool {
        self.enabled
    }

    fn key_str(&self) -> (r: &str) {
        self.key.as_str()
    }

    fn is_enabled(&self) -> (r: bool) {
        self.enabled
    }
}

impl Keyed for LiveSource {
    open spec fn key_of(&self) -> Seq<char> {
        self.key@
    }

    open spec fn enabled_of(&self) -> bool {
        self.enabled
    }

    fn key_str(&self) -> (r: &str) {
        self.key.as_str()
    }

    fn is_enabled(&self) -> (r: bool) {
        self.enabled
    }
}

pub open spec fn keys_of<T: Keyed>(s: Seq<T>) -> Seq<Seq<char>> {
    s.map_values(|x: T| x.key_of())
}

fn str_eq(a: &str, b: &str) -> (r: bool)
    ensures
        r == (a@ == b@),
{
    let x = chars_of(a);
    let y = chars_of(b);
    crate::text::eq_vec(&x, &y)
}

/// The first index at or after `j` whose key appeared before it.
pub open spec fn first_duplicate_from(keys: Seq<Seq<char>>, j: int) -> Option<int>
    decreases keys.len() - j,
{
    if j < 0 || j >= keys.len() {
        None
    } else if keys.take(j).contains(keys[j]) {
        Some(j)
    } else {
        first_duplicate_from(keys, j + 1)
    }
}

/// The first position whose key repeats an earlier one.
pub open spec fn first_duplicate(keys: Seq<Seq<char>>) -> Option<int> {
    first_duplicate_from(keys, 0)
}

/// Why a submitted list of sources is refused.
#[derive(Debug, Clone, PartialEq, Eq)]
pub enum SourceListError {
    /// No source is left.
    Empty,
    /// A key occurs twice; the repeated key.
    DuplicateKey(String),
    /// The chosen default is none of the keys.
    MissingDefault,
}

/// The outcome of checking a list of source keys.
pub enum KeyCheck {
    Valid,
    Empty,
    DuplicateKey(Seq<char>),
    MissingDefault,
}

/// A list of keys is refused when empty, then at its first repeated key,
/// then when the default is none of its keys.
pub open spec fn checked_keys(keys: Seq<Seq<char>>, default_key: Seq<char>) -> KeyCheck {
    if keys.len() == 0 {
        KeyCheck::Empty
    } else {
        match first_duplicate(keys) {
            Some(j) => KeyCheck::DuplicateKey(keys[j]),
            None => if keys.contains(default_key) {
                KeyCheck::Valid
            } else {
                KeyCheck::MissingDefault
            },
        }
    }
}

pub open spec fn check_of(r: Result<(), SourceListError>) -> KeyCheck {
    match r {
        Ok(()) => KeyCheck::Valid,
        Err(SourceListError::Empty) => KeyCheck::Empty,
        Err(SourceListError::DuplicateKey(k)) => KeyCheck::DuplicateKey(k@),
        Err(SourceListError::MissingDefault) => KeyCheck::MissingDefault,
    }
}

/// Checks a normalized list of sources and its default: the list is not
/// empty, no key occurs twice (the first repetition is reported), and the
/// trimmed default is one of the keys.
pub fn validate_keyed<T: Keyed>(sources: &Vec<T>, default_source: &str) -> (r: Result<(), SourceListError>)
    ensures
        check_of(r) == checked_keys(keys_of(sources@), trim(default_source@)),
{
    let ghost K = keys_of(sources@);
    if sources.len() == 0 {
        return Err(SourceListError::Empty);
    }
    let d = chars_of(default_source);
    let dt = string_of(&trim_vec(&d));
    let mut j: usize = 0;
    while j < sources.len()
        invariant
            j <= sources.len(),
            K == keys_of(sources@),
            first_duplicate(K) == first_duplicate_from(K, j as int),
        decreases sources.len() - j,
    {
        match earlier_same_key(sources, j) {
            Some(i) => {
                proof {
                    assert(K.take(j as int)[i as int] == K[j as int]);
                }
                return Err(SourceListError::DuplicateKey(String::from_str(sources[j].key_str())));
            },
            None => {
                proof {
                    assert forall|t: int| 0 <= t < j implies K.take(j as int)[t] != K[j as int] by {
                        assert(K.take(j as int)[t] == K[t]);
                    }
                    assert(!K.take(j as int).contains(K[j as int]));
                }
            },
        }
        j += 1;
    }
    let mut k: usize = 0;
    while k < sources.len()
        invariant
            k <= sources.len(),
            K == keys_of(sources@),
            dt@ == trim(default_source@),
            sources@.len() > 0,
            first_duplicate(K) is None,
            forall|t: int| 0 <= t < k ==> K[t] != dt@,
        decreases sources.len() - k,
    {
        if str_eq(sources[k].key_str(), dt.as_str()) {
            assert(K[k as int] == dt@);
            return Ok(());
        }
        k += 1;
    }
    Err(SourceListError::MissingDefault)
}

fn earlier_same_key<T: Keyed>(sources: &Vec<T>, j: usize) -> (r: Option<usize>)
    requires
        j < sources.len(),
    ensures
        match r {
            Some(i) => i < j && keys_of(sources@)[i as int] == keys_of(sources@)[j as int],
            None => forall|t: int| 0 <= t < j ==> keys_of(sources@)[t] != keys_of(sources@)[j as int],
        },
{
    let mut i: usize = 0;
    while i < j
        invariant
            i <= j < sources.len(),
            forall|t: int| 0 <= t < i ==> keys_of(sources@)[t] != keys_of(sources@)[j as int],
        decreases j - i,
    {
        if str_eq(sources[i].key_str(), sources[j].key_str()) {
            return Some(i);
        }
        i += 1;
    }
    None
}

/// Checks the sources submitted for saving and their default.
pub fn validate_sources(sources: &Vec<Source>, default_source: &str) -> (r: Result<(), SourceListError>)
    ensures
        check_of(r) == checked_keys(keys_of(sources@), trim(default_source@)),
{
    validate_keyed(sources, default_source)
}

/// Checks the live sources submitted for saving and their default.
pub fn validate_live_sources(sources: &Vec<LiveSource>, default_source: &str) -> (r: Result<(), SourceListError>)
    ensures
        check_of(r) == checked_keys(keys_of(sources@), trim(default_source@)),
{
    validate_keyed(sources, default_source)
}


// ---------------------------------------------------------------- choosing

/// The first position at or after `i` whose element satisfies `p`.
pub open spec fn first_index_from<A>(s: Seq<A>, p: spec_fn(A) -> bool, i: int) -> Option<int>
    decreases s.len() - i,
{
    if i < 0 || i >= s.len() {
        None
    } else if p(s[i]) {
        Some(i)
    } else {
        first_index_from(s, p, i + 1)
    }
}

pub open spec fn first_index<A>(s: Seq<A>, p: spec_fn(A) -> bool) -> Option<int> {
    first_index_from(s, p, 0)
}

pub open spec fn key_match<T: Keyed>(k: Seq<char>) -> spec_fn(T) -> bool {
    |x: T| x.key_of() == k
}

pub open spec fn is_enabled_source<T: Keyed>() -> spec_fn(T) -> bool {
    |x: T| x.enabled_of()
}

/// The source that a non-empty requested key names, if any.
pub open spec fn by_key<T: Keyed>(s: Seq<T>, key: Option<Seq<char>>) -> Option<int> {
    match key {
        Some(k) => if k.len() > 0 {
            first_index(s, key_match::<T>(k))
        } else {
            None
        },
        None => None,
    }
}

/// The video source to use: the one the request names, else the first enabled one.
pub open spec fn chosen_source<T: Keyed>(s: Seq<T>, key: Option<Seq<char>>) -> Option<int> {
    match by_key(s, key) {
        Some(i) => Some(i),
        None => first_index(s, is_enabled_source::<T>()),
    }
}

/// The live source to use: the one the request names, else the first enabled
/// one, else the first one.
pub open spec fn chosen_live_source<T: Keyed>(s: Seq<T>, key: Option<Seq<char>>) -> Option<int> {
    match chosen_source(s, key) {
        Some(i) => Some(i),
        None => if s.len() > 0 {
            Some(0)
        } else {
            None
        },
    }
}

fn find_key<T: Keyed>(sources: &Vec<T>, key: &str) -> (r: Option<usize>)
    ensures
        match r {
            Some(i) => first_index(sources@, key_match::<T>(key@)) == Some(i as int),
            None => first_index(sources@, key_match::<T>(key@)) is None,
        },
{
    let mut i: usize = 0;
    while i < sources.len()
        invariant
            i <= sources.len(),
            first_index(sources@, key_match::<T>(key@)) == first_index_from(sources@, key_match::<T>(key@), i as int),
        decreases sources.len() - i,
    {
        if str_eq(sources[i].key_str(), key) {
            return Some(i);
        }
        i += 1;
    }
    None
}

fn find_enabled<T: Keyed>(sources: &Vec<T>) -> (r: Option<usize>)
    ensures
        match r {
            Some(i) => first_index(sources@, is_enabled_source::<T>()) == Some(i as int),
            None => first_index(sources@, is_enabled_source::<T>()) is None,
        },
{
    let mut i: usize = 0;
    while i < sources.len()
        invariant
            i <= sources.len(),
            first_index(sources@, is_enabled_source::<T>()) == first_index_from(sources@, is_enabled_source::<T>(), i as int),
        decreases sources.len() - i,
    {
        if sources[i].is_enabled() {
            return Some(i);
        }
        i += 1;
    }
    None
}

pub fn choose_source<T: Keyed>(sources: &Vec<T>, key: Option<&str>) -> (r: Option<usize>)
    ensures
        match r {
            Some(i) => chosen_source(sources@, match key {
                Some(k) => Some(k@),
                None => None,
            }) == Some(i as int),
            None => chosen_source(sources@, match key {
                Some(k) => Some(k@),
                None => None,
            }) is None,
        },
{
    match key {
        Some(k) => {
            if !k.is_empty() {
                match find_key(sources, k) {
                    Some(i) => {
                        return Some(i);
                    },
                    None => {},
                }
            }
        },
        None => {},
    }
    find_enabled(sources)
}

pub fn copy_source(s: &Source) -> (r: Source)
    ensures
        r@ == s@,
{
    Source {
        key: copy_string(&s.key),
        name: copy_string(&s.name),
        api: copy_string(&s.api),
        detail: match &s.detail {
            Some(d) => Some(copy_string(d)),
            None => None,
        },
        enabled: s.enabled,
    }
}

pub fn copy_live_source(s: &LiveSource) -> (r: LiveSource)
    ensures
        r@ == s@,
{
    LiveSource {
        key: copy_string(&s.key),
        name: copy_string(&s.name),
        url: copy_string(&s.url),
        ua: match &s.ua {
            Some(d) => Some(copy_string(d)),
            None => None,
        },
        epg: match &s.epg {
            Some(d) => Some(copy_string(d)),
            None => None,
        },
        enabled: s.enabled,
    }
}

/// The video source to use; `None` when no source is enabled and none is named.
pub fn find_source(sources: &Vec<Source>, key: Option<&str>) -> (r: Option<Source>)
    ensures
        match r {
            Some(s) => chosen_source(sources@, match key {
                Some(k) => Some(k@),
                None => None,
            }) matches Some(i) && s@ == sources@[i]@,
            None => chosen_source(sources@, match key {
                Some(k) => Some(k@),
                None => None,
            }) is None,
        },
{
    proof {
        lemma_first_index_bounds(sources@, key_match::<Source>(match key {
            Some(k) => k@,
            None => seq![],
        }), 0);
        lemma_first_index_bounds(sources@, is_enabled_source::<Source>(), 0);
    }
    match choose_source(sources, key) {
        Some(i) => Some(copy_source(&sources[i])),
        None => None,
    }
}

/// The live source to use; `None` only when there is none.
pub fn find_live_source(sources: &Vec<LiveSource>, key: Option<&str>) -> (r: Option<LiveSource>)
    ensures
        match r {
            Some(s) => chosen_live_source(sources@, match key {
                Some(k) => Some(k@),
                None => None,
            }) matches Some(i) && s@ == sources@[i]@,
            None => sources@.len() == 0,
        },
{
    proof {
        lemma_first_index_bounds(sources@, key_match::<LiveSource>(match key {
            Some(k) => k@,
            None => seq![],
        }), 0);
        lemma_first_index_bounds(sources@, is_enabled_source::<LiveSource>(), 0);
    }
    match choose_source(sources, key) {
        Some(i) => Some(copy_live_source(&sources[i])),
        None => if sources.len() > 0 {
            Some(copy_live_source(&sources[0]))
        } else {
            None
        },
    }
}

/// The enabled sources, in order.
pub open spec fn enabled_only(s: Seq<SourceV>) -> Seq<SourceV>
    decreases s.len(),
{
    if s.len() == 0 {
        seq![]
    } else if s.last().enabled {
        enabled_only(s.drop_last()).push(s.last())
    } else {
        enabled_only(s.drop_last())
    }
}

/// The sources that a search asks: the enabled ones, in order.
pub fn enabled_sources(sources: &Vec<Source>) -> (r: Vec<Source>)
    ensures
        source_views(r@) == enabled_only(source_views(sources@)),
{
    let ghost S = source_views(sources@);
    let mut r: Vec<Source> = Vec::new();
    let mut i: usize = 0;
    while i < sources.len()
        invariant
            i <= sources.len(),
            S == source_views(sources@),
            source_views(r@) == enabled_only(S.take(i as int)),
        decreases sources.len() - i,
    {
        proof {
            assert(S.take(i + 1).drop_last() =~= S.take(i as int));
            assert(S.take(i + 1).last() == sources@[i as int]@);
        }
        if sources[i].enabled {
            let c = copy_source(&sources[i]);
            proof {
                assert(source_views(r@.push(c)) =~= source_views(r@).push(c@));
            }
            r.push(c);
        }
        i += 1;
    }
    assert(S.take(sources.len() as int) =~= S);
    r
}

pub proof fn lemma_first_index_bounds<A>(s: Seq<A>, p: spec_fn(A) -> bool, i: int)
    requires
        0 <= i,
    ensures
        match first_index_from(s, p, i) {
            Some(k) => i <= k < s.len() && p(s[k]) && forall|j: int| i <= j < k ==> !p(s[j]),
            None => forall|j: int| i <= j < s.len() ==> !p(s[j]),
        },
    decreases s.len() - i,
{
    if i < s.len() && !p(s[i]) {
        lemma_first_index_bounds(s, p, i + 1);
    }
}

// ---------------------------------------------------------------- merging

pub open spec fn blank(s: Seq<char>) -> bool {
    trim(s).len() == 0
}

/// One imported live source merged: skipped when its key, name or address is
/// blank, else replacing the first source with its key, else appended.
pub open spec fn merge_one(existing: Seq<LiveSourceV>, s: LiveSourceV) -> Seq<LiveSourceV> {
    if blank(s.key) || blank(s.name) || blank(s.url) {
        existing
    } else {
        match first_index(existing, |x: LiveSourceV| x.key == s.key) {
            Some(i) => existing.update(i, s),
            None => existing.push(s),
        }
    }
}

pub open spec fn merge_all(existing: Seq<LiveSourceV>, imported: Seq<LiveSourceV>) -> Seq<LiveSourceV>
    decreases imported.len(),
{
    if imported.len() == 0 {
        existing
    } else {
        merge_one(merge_all(existing, imported.drop_last()), imported.last())
    }
}

fn is_blank(s: &String) -> (r: bool)
    ensures
        r == blank(s@),
{
    let c = chars_of(s.as_str());
    trim_vec(&c).len() == 0
}

/// Merges imported live sources into the existing ones and sorts them by name.
pub fn merge_live_sources(existing: &mut Vec<LiveSource>, imported: Vec<LiveSource>)
    ensures
        live_source_views(final(existing)@) == sorted_by_name(
            merge_all(live_source_views(old(existing)@), live_source_views(imported@)),
        ),
{
    let ghost E0 = live_source_views(existing@);
    let ghost I = live_source_views(imported@);
    let mut rest = imported;
    let ghost mut done: int = 0;
    while rest.len() > 0
        invariant
            0 <= done <= I.len(),
            live_source_views(rest@) == I.skip(done),
            live_source_views(existing@) == merge_all(E0, I.take(done)),
        decreases rest.len(),
    {
        assert(live_source_views(rest@).len() == rest@.len());
        assert(done < I.len());
        let ghost old_rest = live_source_views(rest@);
        let s = rest.remove(0);
        assert(live_source_views(rest@) =~= old_rest.subrange(1, old_rest.len() as int));
        proof {
            assert(I.skip(done)[0] == s@);
            assert(I.take(done + 1).drop_last() =~= I.take(done));
            assert(I.take(done + 1).last() == s@);
        }
        let ghost before = live_source_views(existing@);
        if !(is_blank(&s.key) || is_blank(&s.name) || is_blank(&s.url)) {
            let mut i: usize = 0;
            while i < existing.len() && !str_eq(existing[i].key.as_str(), s.key.as_str())
                invariant
                    i <= existing.len(),
                    before == live_source_views(existing@),
                    first_index(before, |x: LiveSourceV| x.key == s@.key) == first_index_from(before, |x: LiveSourceV| x.key == s@.key, i as int),
                decreases existing.len() - i,
            {
                i += 1;
            }
            let found = i < existing.len();
            if found {
                proof {
                    assert(first_index(before, |x: LiveSourceV| x.key == s@.key) == Some(i as int));
                }
                existing.set(i, s);
                proof {
                    assert(live_source_views(existing@) =~= before.update(i as int, s@));
                }
            } else {
                proof {
                    assert(first_index(before, |x: LiveSourceV| x.key == s@.key) is None);
                }
                existing.push(s);
                proof {
                    assert(live_source_views(existing@) =~= before.push(s@));
                }
            }
        }
        proof {
            done = done + 1;
            assert(old_rest.subrange(1, old_rest.len() as int) =~= I.skip(done));
        }
    }
    proof {
        assert(I.take(done) =~= I);
    }
    let mut taken: Vec<LiveSource> = Vec::new();
    std::mem::swap(existing, &mut taken);
    let sorted = stable_sort_by_name(taken);
    proof {
        lemma_sort_map(taken@, |x: LiveSource| x@);
    }
    *existing = sorted;
}

// ---------------------------------------------------------------- the remembered choice

/// The source preselected at start: the remembered one when it still exists,
/// else the first source, else none (empty).
pub open spec fn selected_source_key(keys: Seq<Seq<char>>, setting: Option<Seq<char>>) -> Seq<char> {
    match setting {
        Some(k) if keys.contains(k) => k,
        _ => if keys.len() > 0 {
            keys[0]
        } else {
            seq![]
        },
    }
}

fn contains_key<T: Keyed>(sources: &Vec<T>, key: &str) -> (r: bool)
    ensures
        r == keys_of(sources@).contains(key@),
{
    match find_key(sources, key) {
        Some(i) => {
            proof {
                lemma_first_index_bounds(sources@, key_match::<T>(key@), 0);
                assert(keys_of(sources@)[i as int] == key@);
            }
            true
        },
        None => {
            proof {
                lemma_first_index_bounds(sources@, key_match::<T>(key@), 0);
                assert forall|j: int| 0 <= j < sources@.len() implies keys_of(sources@)[j] != key@ by {
                    assert(!key_match::<T>(key@)(sources@[j]));
                }
            }
            false
        },
    }
}

pub fn selected_source(sources: &Vec<Source>, setting: Option<String>) -> (r: String)
    ensures
        r@ == selected_source_key(keys_of(sources@), opt_view(setting)),
{
    match &setting {
        Some(k) => {
            if contains_key(sources, k.as_str()) {
                return copy_string(k);
            }
        },
        None => {},
    }
    if sources.len() > 0 {
        copy_string(&sources[0].key)
    } else {
        String::new()
    }
}

/// The live source preselected at start: the remembered one when it still
/// exists, else the first enabled one, else the first one, else none (empty).
pub open spec fn selected_live_source_key(s: Seq<LiveSource>, setting: Option<Seq<char>>) -> Seq<char> {
    match setting {
        Some(k) if keys_of(s).contains(k) => k,
        _ => match first_index(s, is_enabled_source::<LiveSource>()) {
            Some(i) => s[i].key@,
            None => if s.len() > 0 {
                s[0].key@
            } else {
                seq![]
            },
        },
    }
}

pub fn selected_live_source(sources: &Vec<LiveSource>, setting: Option<String>) -> (r: String)
    ensures
        r@ == selected_live_source_key(sources@, opt_view(setting)),
{
    match &setting {
        Some(k) => {
            if contains_key(sources, k.as_str()) {
                return copy_string(k);
            }
        },
        None => {},
    }
    proof {
        lemma_first_index_bounds(sources@, is_enabled_source::<LiveSource>(), 0);
    }
    match find_enabled(sources) {
        Some(i) => copy_string(&sources[i].key),
        None => if sources.len() > 0 {
            copy_string(&sources[0].key)
        } else {
            String::new()
        },
    }
}

// ---------------------------------------------------------------- laws

proof fn lemma_key_chars(s: Seq<char>)
    ensures
        forall|i: int| 0 <= i < key_chars(s).len() ==> is_key_char(#[trigger] key_chars(s)[i]),
        (forall|i: int| 0 <= i < s.len() ==> is_key_char(#[trigger] s[i])) ==> key_chars(s) == s,
    decreases s.len(),
{
    if s.len() > 0 {
        lemma_key_chars(s.drop_last());
        let p = key_chars(s.drop_last());
        let r = key_chars(s);
        assert forall|i: int| 0 <= i < r.len() implies is_key_char(#[trigger] r[i]) by {
            if i < p.len() {
                assert(r[i] == p[i]);
            }
        }
        if forall|i: int| 0 <= i < s.len() ==> is_key_char(#[trigger] s[i]) {
            assert forall|i: int| 0 <= i < s.drop_last().len() implies is_key_char(#[trigger] s.drop_last()[i]) by {
                assert(s.drop_last()[i] == s[i]);
            }
            assert(s.drop_last().push(s.last()) =~= s);
        }
    }
}

/// A normalized key holds only ASCII letters, digits, `_` and `-`, and
/// normalizing it again leaves it unchanged.
pub proof fn law_normalized_key(s: Seq<char>)
    ensures
        forall|i: int| 0 <= i < normalized_key(s).len() ==> is_key_char(#[trigger] normalized_key(s)[i]),
        normalized_key(normalized_key(s)) == normalized_key(s),
{
    let k = normalized_key(s);
    lemma_key_chars(trim(s));
    if k.len() > 0 {
        assert(is_key_char(k[0]));
        assert(is_key_char(k.last()));
    }
    assert(trim_start(k) == k);
    assert(trim_end(k) == k);
    lemma_key_chars(k);
}

proof fn lemma_first_duplicate_from(keys: Seq<Seq<char>>, j: int)
    requires
        0 <= j,
    ensures
        first_duplicate_from(keys, j) is None <==> forall|a: int, b: int| 0 <= a < b < keys.len() && j <= b ==> keys[a] != keys[b],
        first_duplicate_from(keys, j) matches Some(b) ==> j <= b < keys.len() && exists|a: int| 0 <= a < b && keys[a] == keys[b],
    decreases keys.len() - j,
{
    if j < keys.len() {
        if keys.take(j).contains(keys[j]) {
            let a = choose|a: int| 0 <= a < keys.take(j).len() && keys.take(j)[a] == keys[j];
            assert(keys[a] == keys[j]);
        } else {
            lemma_first_duplicate_from(keys, j + 1);
            assert forall|a: int| 0 <= a < j implies keys[a] != keys[j] by {
                assert(keys.take(j)[a] == keys[a]);
            }
        }
    }
}

/// A list of keys is accepted exactly when it is not empty, no key occurs
/// twice and the default is one of the keys; a reported repeated key does occur twice.
pub proof fn law_checked_keys(keys: Seq<Seq<char>>, default_key: Seq<char>)
    ensures
        (checked_keys(keys, default_key) is Valid) <==> (keys.len() > 0 && keys.no_duplicates() && keys.contains(default_key)),
        checked_keys(keys, default_key) matches KeyCheck::DuplicateKey(k)
            ==> exists|a: int, b: int| 0 <= a < b < keys.len() && keys[a] == k && keys[b] == k,
{
    lemma_first_duplicate_from(keys, 0);
    if keys.no_duplicates() {
        assert forall|a: int, b: int| 0 <= a < b < keys.len() && 0 <= b implies keys[a] != keys[b] by {}
    } else if keys.len() > 0 && first_duplicate(keys) is None {
        assert forall|a: int, b: int| 0 <= a < keys.len() && 0 <= b < keys.len() && a != b implies keys[a] != keys[b] by {
            if b < a {
                assert(keys[b] != keys[a]);
            }
        }
    }
}

/// The source used is the one the request names when the list has it;
/// otherwise the first enabled one; there is none only when neither exists.
pub proof fn law_chosen_source<T: Keyed>(s: Seq<T>, key: Option<Seq<char>>)
    ensures
        match key {
            Some(k) => k.len() > 0 && keys_of(s).contains(k) ==> match chosen_source(s, key) {
                Some(i) => 0 <= i < s.len() && s[i].key_of() == k,
                None => false,
            },
            None => true,
        },
        match chosen_source(s, key) {
            Some(i) => 0 <= i < s.len() && (s[i].enabled_of() || key == Some(s[i].key_of())),
            None => forall|i: int| 0 <= i < s.len() ==> !(#[trigger] s[i].enabled_of()),
        },
{
    let k = match key {
        Some(k) => k,
        None => seq![],
    };
    lemma_first_index_bounds(s, key_match::<T>(k), 0);
    lemma_first_index_bounds(s, is_enabled_source::<T>(), 0);
    if k.len() > 0 && keys_of(s).contains(k) {
        let j = choose|j: int| 0 <= j < keys_of(s).len() && keys_of(s)[j] == k;
        assert(key_match::<T>(k)(s[j]));
    }
    if chosen_source(s, key) is None {
        assert forall|i: int| 0 <= i < s.len() implies !(#[trigger] s[i].enabled_of()) by {
            assert(!is_enabled_source::<T>()(s[i]));
        }
    }
}

proof fn lemma_merge_one(e: Seq<LiveSourceV>, s: LiveSourceV)
    ensures
        !(blank(s.key) || blank(s.name) || blank(s.url)) ==> merge_one(e, s).contains(s),
        forall|x: LiveSourceV| #[trigger] e.contains(x) && x.key != s.key ==> merge_one(e, s).contains(x),
        forall|x: LiveSourceV| #[trigger] e.contains(x) ==> exists|y: LiveSourceV| #[trigger] merge_one(e, s).contains(y) && y.key == x.key,
{
    let p = |x: LiveSourceV| x.key == s.key;
    lemma_first_index_bounds(e, p, 0);
    let r = merge_one(e, s);
    if !(blank(s.key) || blank(s.name) || blank(s.url)) {
        match first_index(e, p) {
            Some(i) => {
                assert(r[i] == s);
                assert forall|x: LiveSourceV| #[trigger] e.contains(x) && x.key != s.key implies r.contains(x) by {
                    let j = choose|j: int| 0 <= j < e.len() && e[j] == x;
                    assert(j != i);
                    assert(r[j] == x);
                }
                assert forall|x: LiveSourceV| #[trigger] e.contains(x) implies exists|y: LiveSourceV| #[trigger] r.contains(y) && y.key == x.key by {
                    let j = choose|j: int| 0 <= j < e.len() && e[j] == x;
                    assert(r.contains(r[j]));
                }
            },
            None => {
                assert(r[e.len() as int] == s);
                assert forall|x: LiveSourceV| #[trigger] e.contains(x) implies r.contains(x) by {
                    let j = choose|j: int| 0 <= j < e.len() && e[j] == x;
                    assert(r[j] == x);
                }
            },
        }
    }
}

/// Merging keeps a source with the key of every usable imported source, and
/// keeps unchanged every existing source that no usable imported source
/// replaces.
pub proof fn law_merge_all(existing: Seq<LiveSourceV>, imported: Seq<LiveSourceV>)
    ensures
        forall|j: int| 0 <= j < imported.len() && !(blank(imported[j].key) || blank(imported[j].name) || blank(imported[j].url))
            ==> exists|y: LiveSourceV| #[trigger] merge_all(existing, imported).contains(y) && y.key == (#[trigger] imported[j]).key,
        forall|x: LiveSourceV| #[trigger] existing.contains(x)
            && (forall|j: int| 0 <= j < imported.len() && !(blank(imported[j].key) || blank(imported[j].name) || blank(imported[j].url))
                ==> (#[trigger] imported[j]).key != x.key) ==> merge_all(existing, imported).contains(x),
    decreases imported.len(),
{
    if imported.len() > 0 {
        let init = imported.drop_last();
        let s = imported.last();
        law_merge_all(existing, init);
        let m = merge_all(existing, init);
        lemma_merge_one(m, s);
        let r = merge_all(existing, imported);
        assert(r == merge_one(m, s));
        assert forall|j: int| 0 <= j < imported.len() && !(blank(imported[j].key) || blank(imported[j].name) || blank(imported[j].url))
            implies exists|y: LiveSourceV| #[trigger] r.contains(y) && y.key == (#[trigger] imported[j]).key by {
            if j == imported.len() - 1 {
                assert(r.contains(s));
            } else {
                assert(init[j] == imported[j]);
                let y = choose|y: LiveSourceV| #[trigger] m.contains(y) && y.key == init[j].key;
                let z = choose|z: LiveSourceV| #[trigger] r.contains(z) && z.key == y.key;
            }
        }
        assert forall|x: LiveSourceV| #[trigger] existing.contains(x)
            && (forall|j: int| 0 <= j < imported.len() && !(blank(imported[j].key) || blank(imported[j].name) || blank(imported[j].url))
                ==> (#[trigger] imported[j]).key != x.key) implies r.contains(x) by {
            assert forall|j: int| 0 <= j < init.len() && !(blank(init[j].key) || blank(init[j].name) || blank(init[j].url))
                implies (#[trigger] init[j]).key != x.key by {
                assert(init[j] == imported[j]);
            }
            assert(m.contains(x));
            if !(blank(s.key) || blank(s.name) || blank(s.url)) {
                assert(imported[imported.len() - 1] == s);
            } else {
                assert(r == m);
            }
        }
    }
}

/// The preselected source is one of the sources whenever there is one.
pub proof fn law_selected_source_key(keys: Seq<Seq<char>>, setting: Option<Seq<char>>)
    ensures
        keys.len() > 0 ==> keys.contains(selected_source_key(keys, setting)),
{
    if keys.len() > 0 {
        assert(keys[0] == keys[0]);
    }
}

} // verus!
