//! Play history: matching titles across sources, the rows that saving a
//! history entry replaces, resuming, and skip settings.
use vstd::prelude::*;
use crate::live::copy_string;
use crate::model::{PlayHistory, PlayHistoryV, SkipConfig};
use crate::proxy::{ProxyServer, url_encoded};
use crate::text::{chars_of, contains, contains_exec, eq_vec, is_ws, is_ws_exec, lower, lower_char, lower_char_exec, lower_vec, string_of};

verus! {

broadcast use vstd::string::group_string_axioms;

pub open spec fn is_cjk(c: char) -> bool {
    '\u{4e00}' <= c && c <= '\u{9fff}'
}

pub fn is_cjk_exec(c: char) -> (r: bool)
    ensures
        r == is_cjk(c),
{
    '\u{4e00}' <= c && c <= '\u{9fff}'
}

/// The brackets that titles are compared without.
pub open spec fn title_brackets() -> Seq<char> {
    "()（）[]【】{}「」『』<>《》"@
}

/// A character that counts when titles are compared: not white space, not a
/// bracket, and an ASCII letter or digit, `_`, or a CJK ideograph.
pub open spec fn title_char(c: char) -> bool {
    !is_ws(c) && !title_brackets().contains(c) && (('0' <= c && c <= '9') || ('A' <= c && c <= 'Z') || ('a' <= c
        && c <= 'z') || c == '_' || is_cjk(c))
}

/// A title as history entries are matched by: only the characters that count,
/// lowercased (only ASCII letters among them have a lowercase form).
pub open spec fn normalized_title(t: Seq<char>) -> Seq<char>
    decreases t.len(),
{
    if t.len() == 0 {
        seq![]
    } else if title_char(t.last()) {
        normalized_title(t.drop_last()).push(lower_char(t.last()))
    } else {
        normalized_title(t.drop_last())
    }
}

fn title_char_exec(c: char, brackets: &Vec<char>) -> (r: bool)
    requires
        brackets@ == title_brackets(),
    ensures
        r == title_char(c),
{
    if is_ws_exec(c) {
        return false;
    }
    let mut i: usize = 0;
    while i < brackets.len()
        invariant
            i <= brackets.len(),
            brackets@ == title_brackets(),
            !is_ws(c),
            forall|j: int| 0 <= j < i ==> brackets@[j] != c,
        decreases brackets.len() - i,
    {
        if brackets[i] == c {
            assert(brackets@.contains(c)) by {
                assert(brackets@[i as int] == c);
            }
            return false;
        }
        i += 1;
    }
    ('0' <= c && c <= '9') || ('A' <= c && c <= 'Z') || ('a' <= c && c <= 'z') || c == '_' || is_cjk_exec(c)
}

pub fn normalized_history_title(title: &str) -> (r: String)
    ensures
        r@ == normalized_title(title@),
{
    let t = chars_of(title);
    let brackets = chars_of("()（）[]【】{}「」『』<>《》");
    let mut out: Vec<char> = Vec::new();
    let mut i: usize = 0;
    while i < t.len()
        invariant
            i <= t.len(),
            brackets@ == title_brackets(),
            out@ == normalized_title(t@.take(i as int)),
        decreases t.len() - i,
    {
        let c = t[i];
        proof {
            assert(t@.take(i + 1).drop_last() =~= t@.take(i as int));
            assert(t@.take(i + 1).last() == c);
        }
        if title_char_exec(c, &brackets) {
            out.push(lower_char_exec(c));
        }
        i += 1;
    }
    assert(t@.take(t.len() as int) =~= t@);
    string_of(&out)
}

/// A stored history row as far as replacing needs it.
#[derive(Debug, Clone)]
pub struct HistoryRow {
    pub source: String,
    pub video_id: String,
    pub title: String,
}

/// Which stored rows saving `entry` removes: every row of another video whose
/// title matches the entry's.
pub open spec fn replaced_row(row: HistoryRow, entry: PlayHistoryV) -> bool {
    !(row.source@ == entry.source && row.video_id@ == entry.video_id) && normalized_title(row.title@)
        == normalized_title(entry.title)
}

pub open spec fn replaced_rows(rows: Seq<HistoryRow>, entry: PlayHistoryV) -> Seq<(Seq<char>, Seq<char>)>
    decreases rows.len(),
{
    if rows.len() == 0 {
        seq![]
    } else if replaced_row(rows.last(), entry) {
        replaced_rows(rows.drop_last(), entry).push((rows.last().source@, rows.last().video_id@))
    } else {
        replaced_rows(rows.drop_last(), entry)
    }
}

fn string_eq(a: &String, b: &String) -> (r: bool)
    ensures
        r == (a@ == b@),
{
    *a == *b
}

/// The keys (source, video) of the stored rows that saving `entry` removes.
pub fn rows_replaced_by(rows: &Vec<HistoryRow>, entry: &PlayHistory) -> (r: Vec<(String, String)>)
    ensures
        r@.map_values(|p: (String, String)| (p.0@, p.1@)) == replaced_rows(rows@, entry@),
{
    let wanted = normalized_history_title(entry.title.as_str());
    let mut r: Vec<(String, String)> = Vec::new();
    let mut i: usize = 0;
    while i < rows.len()
        invariant
            i <= rows.len(),
            wanted@ == normalized_title(entry.title@),
            r@.map_values(|p: (String, String)| (p.0@, p.1@)) == replaced_rows(rows@.take(i as int), entry@),
        decreases rows.len() - i,
    {
        let row = &rows[i];
        proof {
            assert(rows@.take(i + 1).drop_last() =~= rows@.take(i as int));
            assert(rows@.take(i + 1).last() == *row);
        }
        let same_video = string_eq(&row.source, &entry.source) && string_eq(&row.video_id, &entry.video_id);
        if !same_video {
            let t = normalized_history_title(row.title.as_str());
            if string_eq(&t, &wanted) {
                let k = (copy_string(&row.source), copy_string(&row.video_id));
                proof {
                    assert(r@.push(k).map_values(|p: (String, String)| (p.0@, p.1@)) =~= r@.map_values(
                        |p: (String, String)| (p.0@, p.1@),
                    ).push((row.source@, row.video_id@)));
                }
                r.push(k);
            }
        }
        i += 1;
    }
    assert(rows@.take(rows.len() as int) =~= rows@);
    r
}

/// The history entry to resume for a title: the first stored entry (newest
/// first) whose title matches; none for a title without characters that count.
pub open spec fn title_match(rows: Seq<PlayHistory>, title: Seq<char>) -> Option<int> {
    if normalized_title(title).len() == 0 {
        None
    } else {
        crate::selection::first_index(rows, |h: PlayHistory| normalized_title(h.title@) == normalized_title(title))
    }
}

pub fn find_history_by_title(rows: &Vec<PlayHistory>, title: &str) -> (r: Option<usize>)
    ensures
        match r {
            Some(i) => title_match(rows@, title@) == Some(i as int),
            None => title_match(rows@, title@) is None,
        },
{
    let wanted = normalized_history_title(title);
    if wanted.as_str().is_empty() {
        return None;
    }
    let ghost p = |h: PlayHistory| normalized_title(h.title@) == normalized_title(title@);
    let mut i: usize = 0;
    while i < rows.len()
        invariant
            i <= rows.len(),
            wanted@ == normalized_title(title@),
            normalized_title(title@).len() > 0,
            p == |h: PlayHistory| normalized_title(h.title@) == normalized_title(title@),
            crate::selection::first_index(rows@, p) == crate::selection::first_index_from(rows@, p, i as int),
        decreases rows.len() - i,
    {
        let t = normalized_history_title(rows[i].title.as_str());
        if string_eq(&t, &wanted) {
            return Some(i);
        }
        i += 1;
    }
    None
}

// ---------------------------------------------------------------- laws

proof fn lemma_normalized_title_chars(t: Seq<char>)
    ensures
        forall|i: int| 0 <= i < normalized_title(t).len()
            ==> title_char(#[trigger] normalized_title(t)[i]) && lower_char(normalized_title(t)[i]) == normalized_title(t)[i],
    decreases t.len(),
{
    reveal_strlit("()（）[]【】{}「」『』<>《》");
    if t.len() > 0 {
        lemma_normalized_title_chars(t.drop_last());
        let p = normalized_title(t.drop_last());
        let r = normalized_title(t);
        if title_char(t.last()) {
            let c = t.last();
            let l = lower_char(c);
            if 'A' <= c && c <= 'Z' {
                assert('a' <= l && l <= 'z');
                assert(!title_brackets().contains(l)) by {
                    if title_brackets().contains(l) {
                        let k = choose|k: int| 0 <= k < title_brackets().len() && title_brackets()[k] == l;
                    }
                }
            }
            assert forall|i: int| 0 <= i < r.len() implies title_char(#[trigger] r[i]) && lower_char(r[i]) == r[i] by {
                if i < p.len() {
                    assert(r[i] == p[i]);
                }
            }
        }
    }
}

proof fn lemma_normalized_title_fixed(t: Seq<char>)
    requires
        forall|i: int| 0 <= i < t.len() ==> title_char(#[trigger] t[i]) && lower_char(t[i]) == t[i],
    ensures
        normalized_title(t) == t,
    decreases t.len(),
{
    if t.len() > 0 {
        assert forall|i: int| 0 <= i < t.drop_last().len() implies title_char(#[trigger] t.drop_last()[i]) && lower_char(
            t.drop_last()[i],
        ) == t.drop_last()[i] by {
            assert(t.drop_last()[i] == t[i]);
        }
        lemma_normalized_title_fixed(t.drop_last());
        assert(title_char(t[t.len() - 1]));
        assert(t.drop_last().push(t.last()) =~= t);
    }
}

/// Normalizing a normalized title leaves it unchanged, so titles match by
/// their normalized forms consistently.
pub proof fn law_normalized_title_idempotent(t: Seq<char>)
    ensures
        normalized_title(normalized_title(t)) == normalized_title(t),
{
    lemma_normalized_title_chars(t);
    lemma_normalized_title_fixed(normalized_title(t));
}

/// `key` is the (source, video) of a stored row that saving `entry` replaces.
pub open spec fn replaced_row_key(rows: Seq<HistoryRow>, entry: PlayHistoryV, key: (Seq<char>, Seq<char>)) -> bool {
    exists|j: int| 0 <= j < rows.len() && replaced_row(#[trigger] rows[j], entry) && (rows[j].source@, rows[j].video_id@) == key
}

/// Saving an entry never removes the entry's own video, and removes only rows
/// that are stored and whose title matches the entry's.
pub proof fn law_replaced_rows(rows: Seq<HistoryRow>, entry: PlayHistoryV)
    ensures
        forall|k: int| 0 <= k < replaced_rows(rows, entry).len() ==> #[trigger] replaced_rows(rows, entry)[k] != (entry.source, entry.video_id),
        forall|k: int| 0 <= k < replaced_rows(rows, entry).len() ==> replaced_row_key(rows, entry, #[trigger] replaced_rows(rows, entry)[k]),
    decreases rows.len(),
{
    if rows.len() > 0 {
        law_replaced_rows(rows.drop_last(), entry);
        let d = rows.drop_last();
        let p = replaced_rows(d, entry);
        let r = replaced_rows(rows, entry);
        assert forall|k: int| 0 <= k < r.len() implies replaced_row_key(rows, entry, #[trigger] r[k]) by {
            if k < p.len() {
                assert(r[k] == p[k]);
                assert(replaced_row_key(d, entry, p[k]));
                let j = choose|j: int| 0 <= j < d.len() && replaced_row(#[trigger] d[j], entry) && (d[j].source@, d[j].video_id@) == p[k];
                assert(rows[j] == d[j]);
            } else {
                assert(rows[rows.len() - 1] == rows.last());
            }
        }
        assert forall|k: int| 0 <= k < r.len() implies #[trigger] r[k] != (entry.source, entry.video_id) by {
            if k < p.len() {
                assert(r[k] == p[k]);
            }
        }
    }
}

/// The entry resumed for a title is a stored one whose title matches it, and
/// no earlier stored entry matches.
pub proof fn law_title_match(rows: Seq<PlayHistory>, title: Seq<char>)
    ensures
        title_match(rows, title) matches Some(i) ==> 0 <= i < rows.len() && normalized_title(title).len() > 0
            && normalized_title(rows[i].title@) == normalized_title(title)
            && forall|j: int| 0 <= j < i ==> normalized_title((#[trigger] rows[j]).title@) != normalized_title(title),
{
    let p = |h: PlayHistory| normalized_title(h.title@) == normalized_title(title);
    crate::selection::lemma_first_index_bounds(rows, p, 0);
    if title_match(rows, title) is Some {
        assert forall|j: int| 0 <= j < title_match(rows, title)->0 implies normalized_title((#[trigger] rows[j]).title@) != normalized_title(title) by {
            assert(!p(rows[j]));
        }
    }
}

/// A history entry worth resuming: past the first two seconds or past the first episode.
pub fn is_resumable(h: &PlayHistory) -> (r: bool)
    ensures
        r == (h.progress_sec > 2 || h.episode_index > 0),
{
    h.progress_sec > 2 || h.episode_index > 0
}

/// The skip setting that a request stores: negative offsets raised to zero,
/// enabled unless the request says otherwise.
pub fn skip_config_from_request(
    source: String,
    video_id: String,
    intro_end_sec: i64,
    outro_offset_sec: i64,
    enabled: Option<bool>,
    updated_at: i64,
) -> (r: SkipConfig)
    ensures
        r.source@ == source@,
        r.video_id@ == video_id@,
        r.intro_end_sec == if intro_end_sec > 0 { intro_end_sec } else { 0 },
        r.outro_offset_sec == if outro_offset_sec > 0 { outro_offset_sec } else { 0 },
        r.enabled == match enabled {
            Some(b) => b,
            None => true,
        },
        r.updated_at == updated_at,
{
    SkipConfig {
        source,
        video_id,
        intro_end_sec: if intro_end_sec > 0 { intro_end_sec } else { 0 },
        outro_offset_sec: if outro_offset_sec > 0 { outro_offset_sec } else { 0 },
        enabled: match enabled {
            Some(b) => b,
            None => true,
        },
        updated_at,
    }
}

/// The address the player loads: playlists (`.m3u8` anywhere, ASCII case
/// ignored) go through the proxy when it runs; anything else as it is.
pub open spec fn play_address(url: Seq<char>, proxy: Option<Seq<char>>) -> Seq<char> {
    if contains(lower(url), ".m3u8"@) {
        match proxy {
            Some(base) => base + "/proxy/m3u8?url="@ + url_encoded(url),
            None => url,
        }
    } else {
        url
    }
}

pub fn play_url(url: &str, proxy: Option<&ProxyServer>) -> (r: String)
    ensures
        r@ == play_address(url@, match proxy {
            Some(p) => Some(p.base()),
            None => None,
        }),
{
    let c = chars_of(url);
    let l = lower_vec(&c);
    if contains_exec(&l, &chars_of(".m3u8")) {
        match proxy {
            Some(p) => p.proxied_m3u8_url(url),
            None => String::from_str(url),
        }
    } else {
        String::from_str(url)
    }
}

/// The system clock's time type, carried through without being looked into.
#[verifier::external_type_specification]
#[verifier::external_body]
pub struct ExSystemTime(std::time::SystemTime);

/// `SystemTime::now`: the system clock's reading; nothing is promised of it.
#[verifier::external_body]
fn clock_now() -> std::time::SystemTime {
    std::time::SystemTime::now()
}

/// `SystemTime::duration_since(UNIX_EPOCH)`: how long after the epoch the
/// time is, or `None` when it is before the epoch.
#[verifier::external_body]
fn since_epoch(t: &std::time::SystemTime) -> Option<std::time::Duration> {
    t.duration_since(std::time::UNIX_EPOCH).ok()
}

/// `Duration::as_secs`: the whole seconds of a duration.
#[verifier::external_body]
fn whole_seconds(d: &std::time::Duration) -> u64 {
    d.as_secs()
}

/// The timestamp stored for a clock reading given as whole seconds since the
/// Unix epoch (`None` for a reading before the epoch): the seconds as an
/// `i64` (as `as` converts), or 0.
pub fn timestamp_of(secs: Option<u64>) -> (r: i64)
    ensures
        r == match secs {
            Some(s) => s as i64,
            None => 0i64,
        },
{
    match secs {
        Some(s) => s as i64,
        None => 0,
    }
}

/// The current time in whole seconds since the Unix epoch, or 0 when the
/// clock reads a time before the epoch; nothing is promised of the clock.
pub fn now_ts() -> i64 {
    let secs = match since_epoch(&clock_now()) {
        Some(d) => Some(whole_seconds(&d)),
        None => None,
    };
    timestamp_of(secs)
}

} // verus!
