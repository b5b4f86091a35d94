//! MacCMS video sources: the replies they send, turned into search results,
//! categories and pages; the episode lists inside them; and the decoding of
//! the bytes they reply with.
use vstd::prelude::*;
use crate::ads::{contains_ad_marker, contains_ad_marker_exec};
use crate::bindings::{decode_html, decode_with_label, decoded_with_label, html_decoded, pair_views, url_append_query, url_with_query_pairs};
use crate::duration::{all_digits, digits_value, is_digit};
use crate::live::{copy_string, opt_vec_view, opt_view};
use crate::model::{Category, CategoryV, Episode, EpisodeV, LibraryPage, SearchResult, SearchResultV, Source, SourceV, category_views, episode_views, result_views};
use crate::proxy::{before_query, ends_with_suffix};
use crate::text::{
    chars_of, contains, contains_exec, matches_at, decimal, decimal_vec, eq_vec, find, find_exec, lemma_find_from, lower, lower_vec, replace,
    replace_vec, slice_vec, split, split_vec, string_of, strip_leading, strip_leading_vec, strip_trailing,
    strip_trailing_vec, trim, trim_vec, views,
};

verus! {

broadcast use vstd::string::group_string_axioms;

/// A JSON value as far as the source replies need it: a string, a number
/// (its text and, when it is a whole number that fits, its `u64` value), or
/// anything else.
#[derive(Debug, Clone, PartialEq)]
pub enum JsonValue {
    Text(String),
    Number { text: String, as_u64: Option<u64> },
    Other,
}

/// A MacCMS reply.
#[derive(Debug, Clone)]
pub struct MacCmsResponse {
    pub list: Vec<MacCmsItem>,
    pub classes: Vec<MacCmsClass>,
    pub total: JsonValue,
    pub page: JsonValue,
    pub pagecount: JsonValue,
}

/// A category that a MacCMS reply lists.
#[derive(Debug, Clone)]
pub struct MacCmsClass {
    pub type_id: JsonValue,
    pub type_pid: JsonValue,
    pub class_name: String,
}

/// A video that a MacCMS reply lists.
#[derive(Debug, Clone)]
pub struct MacCmsItem {
    pub vod_id: JsonValue,
    pub vod_name: String,
    pub category_name: String,
    pub vod_pic: String,
    pub vod_year: String,
    pub vod_actor: String,
    pub vod_director: String,
    pub vod_area: String,
    pub vod_lang: String,
    pub vod_class: String,
    pub vod_content: String,
    pub vod_remarks: String,
    pub vod_play_url: String,
}

/// An identifier given as a JSON string or number; empty otherwise.
pub open spec fn value_to_id(v: JsonValue) -> Seq<char> {
    match v {
        JsonValue::Text(s) => s@,
        JsonValue::Number { text, .. } => text@,
        JsonValue::Other => seq![],
    }
}

pub fn value_to_id_exec(v: &JsonValue) -> (r: String)
    ensures
        r@ == value_to_id(*v),
{
    match v {
        JsonValue::Text(s) => copy_string(s),
        JsonValue::Number { text, .. } => copy_string(text),
        JsonValue::Other => String::new(),
    }
}

/// What `str::parse::<u32>` accepts: an optional `+` and decimal digits that fit.
pub open spec fn parsed_u32(t: Seq<char>) -> Option<u32> {
    let body = if t.len() > 0 && t[0] == '+' {
        t.drop_first()
    } else {
        t
    };
    if body.len() > 0 && all_digits(body) && digits_value(body) <= u32::MAX {
        Some(digits_value(body) as u32)
    } else {
        None
    }
}

pub fn parse_u32(t: &Vec<char>) -> (r: Option<u32>)
    ensures
        r == parsed_u32(t@),
{
    let body = if t.len() > 0 && t[0] == '+' {
        let b = slice_vec(t, 1, t.len());
        assert(b@ =~= t@.drop_first());
        b
    } else {
        t.clone()
    };
    if body.len() == 0 {
        return None;
    }
    let mut acc: u64 = 0;
    let mut i: usize = 0;
    while i < body.len()
        invariant
            i <= body.len(),
            all_digits(body@.take(i as int)),
            acc == digits_value(body@.take(i as int)),
            acc <= u32::MAX,
            body@.len() > 0,
            body@ == (if t@.len() > 0 && t@[0] == '+' {
                t@.drop_first()
            } else {
                t@
            }),
        decreases body.len() - i,
    {
        let c = body[i];
        if !('0' <= c && c <= '9') {
            assert(!is_digit(body@[i as int]));
            assert(!all_digits(body@));
            return None;
        }
        proof {
            assert(body@.take(i + 1).drop_last() =~= body@.take(i as int));
            assert(body@.take(i + 1).last() == c);
        }
        let next = acc * 10 + ((c as u64) - 48);
        if next > 4294967295 {
            proof {
                if all_digits(body@) {
                    lemma_digits_monotone(body@, i + 1);
                }
            }
            return None;
        }
        acc = next;
        i += 1;
        assert(all_digits(body@.take(i as int))) by {
            assert forall|j: int| 0 <= j < i implies is_digit(#[trigger] body@.take(i as int)[j]) by {
                if j < i - 1 {
                    assert(body@.take(i as int)[j] == body@.take(i - 1)[j]);
                }
            }
        }
    }
    assert(body@.take(body.len() as int) =~= body@);
    Some(acc as u32)
}

/// A number's value only grows as digits are appended.
proof fn lemma_digits_monotone(s: Seq<char>, n: int)
    requires
        0 <= n <= s.len(),
        all_digits(s),
    ensures
        digits_value(s.take(n)) <= digits_value(s),
    decreases s.len() - n,
{
    if n < s.len() {
        lemma_digits_monotone(s, n + 1);
        assert(s.take(n + 1).drop_last() =~= s.take(n));
        assert(is_digit(s[n]));
    } else {
        assert(s.take(n) =~= s);
    }
}

/// A count given as a JSON number or string; 0 when it is neither or does
/// not parse (a number is cut to its low 32 bits).
pub open spec fn json_u32(v: JsonValue) -> u32 {
    match v {
        JsonValue::Number { as_u64, .. } => match as_u64 {
            Some(n) => n as u32,
            None => 0,
        },
        JsonValue::Text(t) => match parsed_u32(t@) {
            Some(n) => n,
            None => 0,
        },
        JsonValue::Other => 0,
    }
}

pub fn deserialize_u32(v: &JsonValue) -> (r: u32)
    ensures
        r == json_u32(*v),
{
    match v {
        JsonValue::Number { as_u64, .. } => match as_u64 {
            Some(n) => *n as u32,
            None => 0,
        },
        JsonValue::Text(t) => {
            let c = chars_of(t.as_str());
            match parse_u32(&c) {
                Some(n) => n,
                None => 0,
            }
        },
        JsonValue::Other => 0,
    }
}

// ---------------------------------------------------------------- text cleaning

/// Entities decoded, trimmed, and no-break spaces turned into spaces.
pub open spec fn clean_text(s: Seq<char>) -> Seq<char> {
    replace(trim(html_decoded(s)), seq!['\u{a0}'], seq![' '])
}

pub fn clean_text_vec(v: &Vec<char>) -> (r: Vec<char>)
    ensures
        r@ == clean_text(v@),
{
    let s = string_of(v);
    let d = decode_html(s.as_str());
    let dc = chars_of(d.as_str());
    let t = trim_vec(&dc);
    let mut nbsp: Vec<char> = Vec::new();
    nbsp.push('\u{a0}');
    let mut space: Vec<char> = Vec::new();
    space.push(' ');
    assert(nbsp@ =~= seq!['\u{a0}']);
    assert(space@ =~= seq![' ']);
    replace_vec(&t, &nbsp, &space)
}

pub fn clean_text_str(s: &String) -> (r: String)
    ensures
        r@ == clean_text(s@),
{
    string_of(&clean_text_vec(&chars_of(s.as_str())))
}

/// The text outside `<...>` tags.
pub open spec fn strip_tags(s: Seq<char>, in_tag: bool) -> Seq<char>
    decreases s.len(),
{
    if s.len() == 0 {
        seq![]
    } else if s[0] == '<' {
        strip_tags(s.drop_first(), true)
    } else if s[0] == '>' {
        strip_tags(s.drop_first(), false)
    } else if !in_tag {
        seq![s[0]] + strip_tags(s.drop_first(), in_tag)
    } else {
        strip_tags(s.drop_first(), in_tag)
    }
}

/// A description with its tags removed, then cleaned.
pub open spec fn clean_html(s: Seq<char>) -> Seq<char> {
    clean_text(strip_tags(s, false))
}

pub fn clean_html_str(s: &String) -> (r: String)
    ensures
        r@ == clean_html(s@),
{
    let c = chars_of(s.as_str());
    let mut out: Vec<char> = Vec::new();
    let mut in_tag = false;
    let mut i: usize = 0;
    assert(c@.skip(0) =~= c@);
    while i < c.len()
        invariant
            i <= c.len(),
            out@ + strip_tags(c@.skip(i as int), in_tag) == strip_tags(c@, false),
        decreases c.len() - i,
    {
        let ch = c[i];
        let ghost before = out@;
        proof {
            assert(c@.skip(i as int).drop_first() =~= c@.skip(i + 1));
            assert(c@.skip(i as int)[0] == ch);
        }
        if ch == '<' {
            in_tag = true;
        } else if ch == '>' {
            in_tag = false;
        } else if !in_tag {
            out.push(ch);
            assert(before + (seq![ch] + strip_tags(c@.skip(i + 1), in_tag)) =~= out@ + strip_tags(c@.skip(i + 1), in_tag));
        }
        i += 1;
    }
    assert(out@ + seq![] =~= out@);
    string_of(&clean_text_vec(&out))
}

// ---------------------------------------------------------------- episodes

/// An address of an HLS playlist (ASCII case ignored).
pub open spec fn is_m3u8_url(url: Seq<char>) -> bool {
    let l = lower(url);
    ".m3u8"@.is_suffix_of(before_query(l)) || contains(l, ".m3u8?"@) || contains(l, "/m3u8/"@)
}

fn is_m3u8_url_exec(url: &Vec<char>) -> (r: bool)
    ensures
        r == is_m3u8_url(url@),
{
    let l = lower_vec(url);
    ends_with_suffix(&l, ".m3u8") || contains_exec(&l, &chars_of(".m3u8?")) || contains_exec(&l, &chars_of("/m3u8/"))
}

/// An episode entry that is an advertisement: titled "ad" or "ads" (ASCII case
/// ignored), titled with 广告, 贴片 or 赞助, or with an advertisement address.
pub open spec fn is_ad_like_episode(title: Seq<char>, url: Seq<char>) -> bool {
    let t = lower(trim(title));
    t == "ad"@ || t == "ads"@ || contains(t, "广告"@) || contains(t, "贴片"@) || contains(t, "赞助"@)
        || contains_ad_marker(url)
}

fn is_ad_like_episode_exec(title: &Vec<char>, url: &Vec<char>) -> (r: bool)
    ensures
        r == is_ad_like_episode(title@, url@),
{
    let tt = trim_vec(title);
    let t = lower_vec(&tt);
    eq_vec(&t, &chars_of("ad")) || eq_vec(&t, &chars_of("ads")) || contains_exec(&t, &chars_of("广告"))
        || contains_exec(&t, &chars_of("贴片")) || contains_exec(&t, &chars_of("赞助")) || contains_ad_marker_exec(url)
}

/// The episode that a `title$url` part describes, unless it has no address
/// or is an advertisement.
pub open spec fn parse_episode_part(part: Seq<char>) -> Option<EpisodeV> {
    match find(part, seq!['$']) {
        None => None,
        Some(k) => {
            let url = trim(part.subrange(k + 1, part.len() as int));
            let title = clean_text(part.subrange(0, k));
            if url.len() == 0 || is_ad_like_episode(title, url) {
                None
            } else {
                Some(EpisodeV { title: title, url: url })
            }
        },
    }
}

pub open spec fn episodes_of_parts(parts: Seq<Seq<char>>) -> Seq<EpisodeV>
    decreases parts.len(),
{
    if parts.len() == 0 {
        seq![]
    } else {
        match parse_episode_part(parts.last()) {
            Some(e) => episodes_of_parts(parts.drop_last()).push(e),
            None => episodes_of_parts(parts.drop_last()),
        }
    }
}

/// The episodes of one play group: its `#`-separated parts.
pub open spec fn parse_episode_group(group: Seq<char>) -> Seq<EpisodeV> {
    episodes_of_parts(split(group, seq!['#']))
}

/// Whether episode `e` is what the `title$url` part `part` describes: the
/// address after the first `$`, trimmed and not empty, and the title before
/// it with HTML entities decoded, then trimmed, with no-break spaces turned
/// into spaces; and the pair is no advertisement.
pub open spec fn episode_from_part(e: EpisodeV, part: Seq<char>) -> bool {
    exists|k: int| {
        &&& 0 <= k < part.len()
        &&& #[trigger] part[k] == '$'
        &&& (forall|m: int| 0 <= m < k ==> part[m] != '$')
        &&& e.url == trim(part.subrange(k + 1, part.len() as int))
        &&& e.url.len() > 0
        &&& e.title == replace(trim(html_decoded(part.subrange(0, k))), seq!['\u{a0}'], seq![' '])
        &&& !is_ad_like_episode(e.title, e.url)
    }
}

proof fn lemma_episode_from_part_parsed(e: EpisodeV, part: Seq<char>)
    requires
        episode_from_part(e, part),
    ensures
        parse_episode_part(part) == Some(e),
{
    let k = choose|k: int| {
        &&& 0 <= k < part.len()
        &&& #[trigger] part[k] == '$'
        &&& (forall|m: int| 0 <= m < k ==> part[m] != '$')
        &&& e.url == trim(part.subrange(k + 1, part.len() as int))
        &&& e.url.len() > 0
        &&& e.title == replace(trim(html_decoded(part.subrange(0, k))), seq!['\u{a0}'], seq![' '])
        &&& !is_ad_like_episode(e.title, e.url)
    };
    lemma_find_from(part, seq!['$'], 0);
    assert(part.subrange(k, k + 1) =~= seq!['$']);
    assert(matches_at(part, seq!['$'], k));
    let f = find(part, seq!['$'])->0;
    assert(part.subrange(f, f + 1)[0] == part[f]);
    assert(f == k);
}

/// The episodes of a list of `title$url` parts: each is described by one of
/// the parts, in order of the parts, and every part with a `$`, a non-blank
/// address and no advertisement gives one.
pub proof fn law_episodes_of_parts(parts: Seq<Seq<char>>)
    ensures
        forall|k: int| 0 <= k < episodes_of_parts(parts).len() ==> exists|i: int| 0 <= i < parts.len()
            && episode_from_part(#[trigger] episodes_of_parts(parts)[k], parts[i]),
        forall|i: int, e: EpisodeV| 0 <= i < parts.len() && #[trigger] episode_from_part(e, parts[i])
            ==> episodes_of_parts(parts).contains(e),
    decreases parts.len(),
{
    if parts.len() > 0 {
        let d = parts.drop_last();
        law_episodes_of_parts(d);
        let t = episodes_of_parts(parts);
        let td = episodes_of_parts(d);
        let last = parts.last();
        assert forall|i: int| 0 <= i < d.len() implies parts[i] == #[trigger] d[i] by {}
        assert(parts[parts.len() - 1] == last);
        match parse_episode_part(last) {
            Some(e) => {
                let k = find(last, seq!['$'])->0;
                lemma_find_from(last, seq!['$'], 0);
                assert(last.subrange(k, k + 1) =~= seq!['$']);
                assert(last[k] == last.subrange(k, k + 1)[0]);
                assert forall|m: int| 0 <= m < k implies last[m] != '$' by {
                    if last[m] == '$' {
                        assert(last.subrange(m, m + 1) =~= seq!['$']);
                        assert(matches_at(last, seq!['$'], m));
                    }
                }
                assert(episode_from_part(e, last));
            },
            None => {},
        }
        assert forall|k: int| 0 <= k < t.len() implies exists|i: int| 0 <= i < parts.len()
            && episode_from_part(#[trigger] t[k], parts[i]) by {
            if k < td.len() {
                assert(t[k] == td[k]);
                let i = choose|i: int| 0 <= i < d.len() && episode_from_part(td[k], d[i]);
                assert(parts[i] == d[i]);
            } else {
                assert(episode_from_part(t[k], parts[parts.len() - 1]));
            }
        }
        assert forall|i: int, e: EpisodeV| 0 <= i < parts.len() && #[trigger] episode_from_part(e, parts[i])
            implies t.contains(e) by {
            if i < d.len() {
                assert(parts[i] == d[i]);
                assert(episode_from_part(e, d[i]));
                let k = choose|k: int| 0 <= k < td.len() && td[k] == e;
                assert(t[k] == td[k]);
            } else {
                lemma_episode_from_part_parsed(e, last);
                assert(t[t.len() - 1] == e);
            }
        }
    }
}

fn parse_episode_part_exec(part: &Vec<char>) -> (r: Option<Episode>)
    ensures
        match r {
            Some(e) => parse_episode_part(part@) == Some(e@),
            None => parse_episode_part(part@) is None,
        },
{
    let mut dollar: Vec<char> = Vec::new();
    dollar.push('$');
    assert(dollar@ =~= seq!['$']);
    proof {
        lemma_find_from(part@, dollar@, 0);
    }
    match find_exec(part, &dollar) {
        None => None,
        Some(k) => {
            let n = part.len();
            let raw_url = slice_vec(part, k + 1, n);
            let url = trim_vec(&raw_url);
            if url.len() == 0 {
                return None;
            }
            let raw_title = slice_vec(part, 0, k);
            let title = clean_text_vec(&raw_title);
            if is_ad_like_episode_exec(&title, &url) {
                return None;
            }
            Some(Episode { title: string_of(&title), url: string_of(&url) })
        },
    }
}

fn parse_episode_group_exec(group: &Vec<char>) -> (r: Vec<Episode>)
    ensures
        episode_views(r@) == parse_episode_group(group@),
{
    let mut hash: Vec<char> = Vec::new();
    hash.push('#');
    assert(hash@ =~= seq!['#']);
    let parts = split_vec(group, &hash);
    let ghost P = views(parts@);
    let mut r: Vec<Episode> = Vec::new();
    let mut i: usize = 0;
    while i < parts.len()
        invariant
            i <= parts.len(),
            P == views(parts@),
            episode_views(r@) == episodes_of_parts(P.take(i as int)),
        decreases parts.len() - i,
    {
        proof {
            assert(P.take(i + 1).drop_last() =~= P.take(i as int));
            assert(P.take(i + 1).last() == parts@[i as int]@);
        }
        match parse_episode_part_exec(&parts[i]) {
            Some(e) => {
                proof {
                    assert(episode_views(r@.push(e)) =~= episode_views(r@).push(e@));
                }
                r.push(e);
            },
            None => {},
        }
        i += 1;
    }
    assert(P.take(parts.len() as int) =~= P);
    r
}

/// The playlist episodes of a group.
pub open spec fn m3u8_only(es: Seq<EpisodeV>) -> Seq<EpisodeV>
    decreases es.len(),
{
    if es.len() == 0 {
        seq![]
    } else if is_m3u8_url(es.last().url) {
        m3u8_only(es.drop_last()).push(es.last())
    } else {
        m3u8_only(es.drop_last())
    }
}

/// The longest group, the last of equally long ones (what `max_by_key` picks).
pub open spec fn last_longest(gs: Seq<Seq<EpisodeV>>) -> Option<Seq<EpisodeV>>
    decreases gs.len(),
{
    if gs.len() == 0 {
        None
    } else {
        match last_longest(gs.drop_last()) {
            None => Some(gs.last()),
            Some(b) => if gs.last().len() >= b.len() {
                Some(gs.last())
            } else {
                Some(b)
            },
        }
    }
}

/// The episodes of each `$$$`-separated group of a play address.
pub open spec fn episode_groups(play_url: Seq<char>) -> Seq<Seq<EpisodeV>> {
    split(play_url, "$$$"@).map_values(|g: Seq<char>| parse_episode_group(g))
}

/// The episodes of a play address: of its `$$$`-separated groups, the longest
/// list of playlist episodes when there is one, else the longest group.
pub open spec fn parsed_episodes(play_url: Seq<char>) -> Seq<EpisodeV> {
    let groups = episode_groups(play_url);
    let playable = groups.map_values(|g: Seq<EpisodeV>| m3u8_only(g));
    match last_longest(playable) {
        Some(p) if p.len() > 0 => p,
        _ => match last_longest(groups) {
            Some(g) => g,
            None => seq![],
        },
    }
}

fn m3u8_only_exec(es: &Vec<Episode>) -> (r: Vec<Episode>)
    ensures
        episode_views(r@) == m3u8_only(episode_views(es@)),
{
    let ghost E = episode_views(es@);
    let mut r: Vec<Episode> = Vec::new();
    let mut i: usize = 0;
    while i < es.len()
        invariant
            i <= es.len(),
            E == episode_views(es@),
            episode_views(r@) == m3u8_only(E.take(i as int)),
        decreases es.len() - i,
    {
        proof {
            assert(E.take(i + 1).drop_last() =~= E.take(i as int));
            assert(E.take(i + 1).last() == es@[i as int]@);
        }
        let u = chars_of(es[i].url.as_str());
        if is_m3u8_url_exec(&u) {
            let e = Episode { title: copy_string(&es[i].title), url: copy_string(&es[i].url) };
            proof {
                assert(episode_views(r@.push(e)) =~= episode_views(r@).push(e@));
            }
            r.push(e);
        }
        i += 1;
    }
    assert(E.take(es.len() as int) =~= E);
    r
}

pub open spec fn group_views(gs: Seq<Vec<Episode>>) -> Seq<Seq<EpisodeV>> {
    gs.map_values(|g: Vec<Episode>| episode_views(g@))
}

fn last_longest_index(gs: &Vec<Vec<Episode>>) -> (r: Option<usize>)
    ensures
        match r {
            Some(i) => i < gs.len() && last_longest(group_views(gs@)) == Some(group_views(gs@)[i as int]),
            None => last_longest(group_views(gs@)) is None,
        },
{
    let ghost G = group_views(gs@);
    let mut best: Option<usize> = None;
    let mut i: usize = 0;
    while i < gs.len()
        invariant
            i <= gs.len(),
            G == group_views(gs@),
            match best {
                Some(b) => b < i && last_longest(G.take(i as int)) == Some(G[b as int]),
                None => i == 0,
            },
        decreases gs.len() - i,
    {
        proof {
            assert(G.take(i + 1).drop_last() =~= G.take(i as int));
            assert(G.take(i + 1).last() == G[i as int]);
        }
        best = match best {
            None => Some(i),
            Some(b) => if gs[i].len() >= gs[b].len() {
                Some(i)
            } else {
                Some(b)
            },
        };
        i += 1;
    }
    assert(G.take(gs.len() as int) =~= G);
    best
}

fn take_group(gs: Vec<Vec<Episode>>, i: usize) -> (r: Vec<Episode>)
    requires
        i < gs.len(),
    ensures
        episode_views(r@) == group_views(gs@)[i as int],
{
    let mut gs = gs;
    gs.swap_remove(i)
}

/// The episodes that a MacCMS play address lists.
pub fn parse_episodes(play_url: &str) -> (r: Vec<Episode>)
    ensures
        episode_views(r@) == parsed_episodes(play_url@),
{
    let c = chars_of(play_url);
    let sep = chars_of("$$$");
    proof {
        reveal_strlit("$$$");
    }
    let raw = split_vec(&c, &sep);
    let ghost R = views(raw@);
    let mut groups: Vec<Vec<Episode>> = Vec::new();
    let mut playable: Vec<Vec<Episode>> = Vec::new();
    let mut i: usize = 0;
    while i < raw.len()
        invariant
            i <= raw.len(),
            R == views(raw@),
            group_views(groups@) == R.take(i as int).map_values(|g: Seq<char>| parse_episode_group(g)),
            group_views(playable@) == R.take(i as int).map_values(|g: Seq<char>| parse_episode_group(g)).map_values(
                |g: Seq<EpisodeV>| m3u8_only(g),
            ),
        decreases raw.len() - i,
    {
        let g = parse_episode_group_exec(&raw[i]);
        let p = m3u8_only_exec(&g);
        proof {
            assert(R.take(i + 1) =~= R.take(i as int).push(raw@[i as int]@));
            assert(group_views(groups@.push(g)) =~= group_views(groups@).push(episode_views(g@)));
            assert(group_views(playable@.push(p)) =~= group_views(playable@).push(episode_views(p@)));
            assert(group_views(groups@.push(g)) =~= R.take(i + 1).map_values(|g: Seq<char>| parse_episode_group(g)));
            assert(group_views(playable@.push(p)) =~= R.take(i + 1).map_values(|g: Seq<char>| parse_episode_group(g)).map_values(
                |g: Seq<EpisodeV>| m3u8_only(g),
            ));
        }
        groups.push(g);
        playable.push(p);
        i += 1;
    }
    proof {
        assert(R.take(raw.len() as int) =~= R);
    }
    match last_longest_index(&playable) {
        Some(k) => {
            if playable[k].len() > 0 {
                return take_group(playable, k);
            }
        },
        None => {},
    }
    match last_longest_index(&groups) {
        Some(k) => take_group(groups, k),
        None => Vec::new(),
    }
}


/// An episode with an address that is no advertisement.
pub open spec fn acceptable_episode(e: EpisodeV) -> bool {
    e.url.len() > 0 && !is_ad_like_episode(e.title, e.url)
}

pub open spec fn all_acceptable(es: Seq<EpisodeV>) -> bool {
    forall|k: int| 0 <= k < es.len() ==> acceptable_episode(#[trigger] es[k])
}

proof fn lemma_parts_acceptable(parts: Seq<Seq<char>>)
    ensures
        all_acceptable(episodes_of_parts(parts)),
    decreases parts.len(),
{
    if parts.len() > 0 {
        lemma_parts_acceptable(parts.drop_last());
    }
}

proof fn lemma_m3u8_only(es: Seq<EpisodeV>)
    ensures
        forall|k: int| 0 <= k < m3u8_only(es).len() ==> is_m3u8_url(#[trigger] m3u8_only(es)[k].url),
        all_acceptable(es) ==> all_acceptable(m3u8_only(es)),
    decreases es.len(),
{
    if es.len() > 0 {
        lemma_m3u8_only(es.drop_last());
        let r = m3u8_only(es);
        let p = m3u8_only(es.drop_last());
        if all_acceptable(es) {
            assert forall|k: int| 0 <= k < es.drop_last().len() implies acceptable_episode(#[trigger] es.drop_last()[k]) by {
                assert(es.drop_last()[k] == es[k]);
            }
            if is_m3u8_url(es.last().url) {
                assert forall|k: int| 0 <= k < r.len() implies acceptable_episode(#[trigger] r[k]) by {
                    if k == p.len() {
                        assert(r[k] == es[es.len() - 1]);
                    } else {
                        assert(r[k] == p[k]);
                    }
                }
            }
        }
    }
}

proof fn lemma_last_longest(gs: Seq<Seq<EpisodeV>>)
    ensures
        last_longest(gs) matches Some(b) ==> gs.contains(b) && forall|i: int| 0 <= i < gs.len() ==> (#[trigger] gs[i]).len() <= b.len(),
        gs.len() > 0 ==> last_longest(gs) is Some,
    decreases gs.len(),
{
    if gs.len() > 0 {
        lemma_last_longest(gs.drop_last());
        assert(gs[gs.len() - 1] == gs.last());
        match last_longest(gs.drop_last()) {
            None => {},
            Some(b) => {
                let j = choose|j: int| 0 <= j < gs.drop_last().len() && gs.drop_last()[j] == b;
                assert(gs[j] == b);
                assert forall|i: int| 0 <= i < gs.len() - 1 implies (#[trigger] gs[i]).len() <= b.len() by {
                    assert(gs[i] == gs.drop_last()[i]);
                }
            },
        }
    }
}

/// Every episode that a play address gives has an address and is no
/// advertisement; and when some group lists a playlist episode, every episode
/// given is a playlist episode.
pub proof fn law_parsed_episodes(play_url: Seq<char>)
    ensures
        all_acceptable(parsed_episodes(play_url)),
        (exists|i: int| 0 <= i < episode_groups(play_url).len() && m3u8_only(#[trigger] episode_groups(play_url)[i]).len() > 0)
            ==> forall|k: int| 0 <= k < parsed_episodes(play_url).len() ==> is_m3u8_url(#[trigger] parsed_episodes(play_url)[k].url),
{
    let groups = episode_groups(play_url);
    let playable = groups.map_values(|g: Seq<EpisodeV>| m3u8_only(g));
    assert forall|i: int| 0 <= i < groups.len() implies all_acceptable(#[trigger] groups[i]) by {
        lemma_parts_acceptable(split(split(play_url, "$$$"@)[i], seq!['#']));
    }
    assert forall|i: int| 0 <= i < playable.len() implies all_acceptable(#[trigger] playable[i])
        && forall|k: int| 0 <= k < playable[i].len() ==> is_m3u8_url(#[trigger] playable[i][k].url) by {
        lemma_m3u8_only(groups[i]);
    }
    lemma_last_longest(playable);
    lemma_last_longest(groups);
    match last_longest(playable) {
        Some(p) => {
            let j = choose|j: int| 0 <= j < playable.len() && playable[j] == p;
            assert(all_acceptable(playable[j]));
        },
        None => {},
    }
    match last_longest(groups) {
        Some(g) => {
            let j = choose|j: int| 0 <= j < groups.len() && groups[j] == g;
            assert(all_acceptable(groups[j]));
        },
        None => {},
    }
    if exists|i: int| 0 <= i < groups.len() && m3u8_only(#[trigger] groups[i]).len() > 0 {
        let i = choose|i: int| 0 <= i < groups.len() && m3u8_only(#[trigger] groups[i]).len() > 0;
        assert(playable[i].len() > 0);
    }
}

/// Whether `b` is the longest of `gs`, and no group after the `j`-th (which it
/// is) is as long.
pub open spec fn longest_at(gs: Seq<Seq<EpisodeV>>, j: int, b: Seq<EpisodeV>) -> bool {
    &&& 0 <= j < gs.len()
    &&& gs[j] == b
    &&& forall|i: int| 0 <= i < gs.len() ==> (#[trigger] gs[i]).len() <= b.len()
    &&& forall|i: int| j < i < gs.len() ==> (#[trigger] gs[i]).len() < b.len()
}

proof fn lemma_last_longest_at(gs: Seq<Seq<EpisodeV>>)
    ensures
        last_longest(gs) matches Some(b) ==> exists|j: int| longest_at(gs, j, b),
        gs.len() > 0 ==> last_longest(gs) is Some,
    decreases gs.len(),
{
    if gs.len() > 0 {
        let d = gs.drop_last();
        lemma_last_longest_at(d);
        let n = gs.len() - 1;
        assert forall|i: int| 0 <= i < n implies gs[i] == #[trigger] d[i] by {}
        match last_longest(d) {
            None => {
                assert(d.len() == 0);
                assert(gs[n] == gs.last());
                assert(longest_at(gs, n, gs.last()));
                assert(last_longest(gs) == Some(gs.last()));
                assert(longest_at(gs, n, last_longest(gs)->0));
            },
            Some(b) => {
                let j = choose|j: int| longest_at(d, j, b);
                assert(gs[n] == gs.last());
                assert(d[j] == b);
                if gs.last().len() >= b.len() {
                    assert forall|i: int| 0 <= i < gs.len() implies (#[trigger] gs[i]).len() <= gs.last().len() by {
                        if i < n {
                            assert(d[i].len() <= b.len());
                        }
                    }
                    assert(longest_at(gs, n, gs.last()));
                    assert(last_longest(gs) == Some(gs.last()));
                    assert(longest_at(gs, n, last_longest(gs)->0));
                } else {
                    assert forall|i: int| 0 <= i < gs.len() implies (#[trigger] gs[i]).len() <= b.len() by {
                        if i < n {
                            assert(d[i].len() <= b.len());
                        }
                    }
                    assert forall|i: int| j < i < gs.len() implies (#[trigger] gs[i]).len() < b.len() by {
                        if i < n {
                            assert(d[i].len() < b.len());
                        }
                    }
                    assert(longest_at(gs, j, b));
                    assert(last_longest(gs) == Some(b));
                    assert(longest_at(gs, j, last_longest(gs)->0));
                }
            },
        }
    }
}

/// Which list of episodes a play address gives.  When some `$$$`-separated
/// group lists a playlist episode, it is the playlist episodes of one group
/// `g`, at least as many as those of any group and more than those of any
/// group after `g`.  Otherwise it is one whole group `g`, at least as long as
/// any group and longer than any group after it; or nothing when the address
/// has no group.
pub proof fn law_episodes_largest_group(play_url: Seq<char>)
    ensures
        (exists|i: int| 0 <= i < episode_groups(play_url).len() && m3u8_only(#[trigger] episode_groups(play_url)[i]).len() > 0)
            ==> exists|g: int| 0 <= g < episode_groups(play_url).len()
                && parsed_episodes(play_url) == m3u8_only(episode_groups(play_url)[g])
                && (forall|i: int| 0 <= i < episode_groups(play_url).len()
                    ==> m3u8_only(#[trigger] episode_groups(play_url)[i]).len() <= parsed_episodes(play_url).len())
                && (forall|i: int| g < i < episode_groups(play_url).len()
                    ==> m3u8_only(#[trigger] episode_groups(play_url)[i]).len() < parsed_episodes(play_url).len()),
        (forall|i: int| 0 <= i < episode_groups(play_url).len() ==> m3u8_only(#[trigger] episode_groups(play_url)[i]).len() == 0)
            ==> (episode_groups(play_url).len() == 0 ==> parsed_episodes(play_url) == Seq::<EpisodeV>::empty())
                && (episode_groups(play_url).len() > 0 ==> exists|g: int| longest_at(episode_groups(play_url), g, parsed_episodes(play_url))),
{
    let groups = episode_groups(play_url);
    let playable = groups.map_values(|g: Seq<EpisodeV>| m3u8_only(g));
    let r = parsed_episodes(play_url);
    lemma_last_longest_at(playable);
    lemma_last_longest_at(groups);
    if exists|i: int| 0 <= i < groups.len() && m3u8_only(#[trigger] groups[i]).len() > 0 {
        let i = choose|i: int| 0 <= i < groups.len() && m3u8_only(#[trigger] groups[i]).len() > 0;
        assert(playable[i].len() > 0);
        let p = last_longest(playable)->0;
        let g = choose|j: int| longest_at(playable, j, p);
        assert(playable[i].len() <= p.len());
        assert(r == p);
        assert(r == m3u8_only(groups[g]));
        assert forall|k: int| 0 <= k < groups.len() implies m3u8_only(#[trigger] groups[k]).len() <= r.len() by {
            assert(playable[k] == m3u8_only(groups[k]));
        }
        assert forall|k: int| g < k < groups.len() implies m3u8_only(#[trigger] groups[k]).len() < r.len() by {
            assert(playable[k] == m3u8_only(groups[k]));
        }
    }
    if forall|i: int| 0 <= i < groups.len() ==> m3u8_only(#[trigger] groups[i]).len() == 0 {
        match last_longest(playable) {
            Some(p) => {
                let j = choose|j: int| longest_at(playable, j, p);
                assert(playable[j] == m3u8_only(groups[j]));
                assert(p.len() == 0);
            },
            None => {},
        }
    }
}

// ---------------------------------------------------------------- replies

/// The search result that a listed video gives.
pub open spec fn search_result_of(item: MacCmsItem, src: SourceV) -> SearchResultV {
    SearchResultV {
        id: value_to_id(item.vod_id),
        source: src.key,
        source_name: src.name,
        title: clean_text(item.vod_name@),
        poster: item.vod_pic@,
        category: clean_text(item.category_name@),
        year: clean_text(item.vod_year@),
        actor: clean_text(item.vod_actor@),
        director: clean_text(item.vod_director@),
        area: clean_text(item.vod_area@),
        language: clean_text(item.vod_lang@),
        genre: clean_text(item.vod_class@),
        description: clean_html(item.vod_content@),
        remarks: clean_text(item.vod_remarks@),
        episodes: parsed_episodes(item.vod_play_url@),
    }
}

pub fn into_search_result(item: &MacCmsItem, source: &Source) -> (r: SearchResult)
    ensures
        r@ == search_result_of(*item, source@),
{
    SearchResult {
        id: value_to_id_exec(&item.vod_id),
        source: copy_string(&source.key),
        source_name: copy_string(&source.name),
        title: clean_text_str(&item.vod_name),
        poster: copy_string(&item.vod_pic),
        category: clean_text_str(&item.category_name),
        year: clean_text_str(&item.vod_year),
        actor: clean_text_str(&item.vod_actor),
        director: clean_text_str(&item.vod_director),
        area: clean_text_str(&item.vod_area),
        language: clean_text_str(&item.vod_lang),
        genre: clean_text_str(&item.vod_class),
        description: clean_html_str(&item.vod_content),
        remarks: clean_text_str(&item.vod_remarks),
        episodes: parse_episodes(item.vod_play_url.as_str()),
    }
}

/// The search results of the listed videos that have a title, in order.
pub open spec fn titled_results(items: Seq<MacCmsItem>, src: SourceV) -> Seq<SearchResultV>
    decreases items.len(),
{
    if items.len() == 0 {
        seq![]
    } else {
        let r = search_result_of(items.last(), src);
        if r.title.len() > 0 {
            titled_results(items.drop_last(), src).push(r)
        } else {
            titled_results(items.drop_last(), src)
        }
    }
}

/// The search results of a reply.
pub fn search_results(data: &MacCmsResponse, source: &Source) -> (r: Vec<SearchResult>)
    ensures
        result_views(r@) == titled_results(data.list@, source@),
{
    let mut r: Vec<SearchResult> = Vec::new();
    let mut i: usize = 0;
    while i < data.list.len()
        invariant
            i <= data.list.len(),
            result_views(r@) == titled_results(data.list@.take(i as int), source@),
        decreases data.list.len() - i,
    {
        proof {
            assert(data.list@.take(i + 1).drop_last() =~= data.list@.take(i as int));
        }
        let item = into_search_result(&data.list[i], source);
        if !item.title.as_str().is_empty() {
            proof {
                assert(result_views(r@.push(item)) =~= result_views(r@).push(item@));
            }
            r.push(item);
        }
        i += 1;
    }
    assert(data.list@.take(data.list.len() as int) =~= data.list@);
    r
}

/// The fields of the search result that a listed video gives: the source's
/// key and name, the picture as it is, the episodes of its play address, and
/// each text field with its HTML entities decoded, then trimmed, with no-break
/// spaces turned into spaces (the description with its `<...>` tags removed
/// first).
pub proof fn law_search_result_fields(item: MacCmsItem, src: SourceV)
    ensures
        ({
            let r = search_result_of(item, src);
            let nbsp = seq!['\u{a0}'];
            let sp = seq![' '];
            &&& r.source == src.key
            &&& r.source_name == src.name
            &&& r.poster == item.vod_pic@
            &&& r.episodes == parsed_episodes(item.vod_play_url@)
            &&& r.title == replace(trim(html_decoded(item.vod_name@)), nbsp, sp)
            &&& r.category == replace(trim(html_decoded(item.category_name@)), nbsp, sp)
            &&& r.year == replace(trim(html_decoded(item.vod_year@)), nbsp, sp)
            &&& r.actor == replace(trim(html_decoded(item.vod_actor@)), nbsp, sp)
            &&& r.director == replace(trim(html_decoded(item.vod_director@)), nbsp, sp)
            &&& r.area == replace(trim(html_decoded(item.vod_area@)), nbsp, sp)
            &&& r.language == replace(trim(html_decoded(item.vod_lang@)), nbsp, sp)
            &&& r.genre == replace(trim(html_decoded(item.vod_class@)), nbsp, sp)
            &&& r.remarks == replace(trim(html_decoded(item.vod_remarks@)), nbsp, sp)
            &&& r.description == replace(trim(html_decoded(strip_tags(item.vod_content@, false))), nbsp, sp)
        }),
{
}

/// The results of a search reply are the search results of its listed
/// videos that have a title: each result is that of a listed video and has a
/// title, and every listed video whose title is not blank once cleaned gives
/// a result.
pub proof fn law_search_results_listed(items: Seq<MacCmsItem>, src: SourceV)
    ensures
        forall|k: int| 0 <= k < titled_results(items, src).len() ==> exists|i: int| 0 <= i < items.len()
            && #[trigger] titled_results(items, src)[k] == search_result_of(items[i], src),
        forall|i: int| 0 <= i < items.len() && search_result_of(#[trigger] items[i], src).title.len() > 0
            ==> titled_results(items, src).contains(search_result_of(items[i], src)),
        forall|k: int| 0 <= k < titled_results(items, src).len() ==> (#[trigger] titled_results(items, src)[k]).title.len() > 0,
    decreases items.len(),
{
    if items.len() > 0 {
        let d = items.drop_last();
        law_search_results_listed(d, src);
        let t = titled_results(items, src);
        let td = titled_results(d, src);
        let last = search_result_of(items.last(), src);
        assert forall|i: int| 0 <= i < d.len() implies items[i] == #[trigger] d[i] by {}
        assert forall|k: int| 0 <= k < t.len() implies exists|i: int| 0 <= i < items.len()
            && #[trigger] t[k] == search_result_of(items[i], src) by {
            if k < td.len() {
                assert(t[k] == td[k]);
                let i = choose|i: int| 0 <= i < d.len() && td[k] == search_result_of(d[i], src);
                assert(items[i] == d[i]);
            } else {
                assert(t[k] == last);
                assert(items[items.len() - 1] == items.last());
            }
        }
        assert forall|i: int| 0 <= i < items.len() && search_result_of(#[trigger] items[i], src).title.len() > 0
            implies t.contains(search_result_of(items[i], src)) by {
            if i < d.len() {
                assert(items[i] == d[i]);
                assert(td.contains(search_result_of(d[i], src)));
                let k = choose|k: int| 0 <= k < td.len() && td[k] == search_result_of(d[i], src);
                assert(t[k] == td[k]);
            } else {
                assert(items[i] == items.last());
                assert(t[t.len() - 1] == last);
            }
        }
        assert forall|k: int| 0 <= k < t.len() implies (#[trigger] t[k]).title.len() > 0 by {
            if k < td.len() {
                assert(t[k] == td[k]);
            }
        }
    }
}

/// The category that a listed class gives.
pub open spec fn category_of(c: MacCmsClass) -> CategoryV {
    CategoryV { id: value_to_id(c.type_id), parent_id: value_to_id(c.type_pid), name: clean_text(c.class_name@) }
}

/// The categories of the listed classes that have an identifier and a name, in order.
pub open spec fn named_categories(classes: Seq<MacCmsClass>) -> Seq<CategoryV>
    decreases classes.len(),
{
    if classes.len() == 0 {
        seq![]
    } else {
        let c = category_of(classes.last());
        if c.id.len() > 0 && c.name.len() > 0 {
            named_categories(classes.drop_last()).push(c)
        } else {
            named_categories(classes.drop_last())
        }
    }
}

/// The category that a listed class gives: the class's identifier and
/// parent identifier, and its name with HTML entities decoded, then trimmed,
/// with no-break spaces turned into spaces.
pub proof fn law_category_fields(c: MacCmsClass)
    ensures
        category_of(c).id == value_to_id(c.type_id),
        category_of(c).parent_id == value_to_id(c.type_pid),
        category_of(c).name == replace(trim(html_decoded(c.class_name@)), seq!['\u{a0}'], seq![' ']),
{
}

/// The named categories of a reply are those of its listed classes that have
/// an identifier and a name: each is the category of a listed class and has
/// both, and every listed class whose category has both gives one.
pub proof fn law_categories_listed(classes: Seq<MacCmsClass>)
    ensures
        forall|k: int| 0 <= k < named_categories(classes).len() ==> exists|i: int| 0 <= i < classes.len()
            && #[trigger] named_categories(classes)[k] == category_of(classes[i]),
        forall|i: int| 0 <= i < classes.len() && category_of(#[trigger] classes[i]).id.len() > 0 && category_of(classes[i]).name.len() > 0
            ==> named_categories(classes).contains(category_of(classes[i])),
        forall|k: int| 0 <= k < named_categories(classes).len() ==> (#[trigger] named_categories(classes)[k]).id.len() > 0
            && named_categories(classes)[k].name.len() > 0,
    decreases classes.len(),
{
    if classes.len() > 0 {
        let d = classes.drop_last();
        law_categories_listed(d);
        let t = named_categories(classes);
        let td = named_categories(d);
        let last = category_of(classes.last());
        assert forall|i: int| 0 <= i < d.len() implies classes[i] == #[trigger] d[i] by {}
        assert forall|k: int| 0 <= k < t.len() implies exists|i: int| 0 <= i < classes.len()
            && #[trigger] t[k] == category_of(classes[i]) by {
            if k < td.len() {
                assert(t[k] == td[k]);
                let i = choose|i: int| 0 <= i < d.len() && td[k] == category_of(d[i]);
                assert(classes[i] == d[i]);
            } else {
                assert(t[k] == last);
                assert(classes[classes.len() - 1] == classes.last());
            }
        }
        assert forall|i: int| 0 <= i < classes.len() && category_of(#[trigger] classes[i]).id.len() > 0
            && category_of(classes[i]).name.len() > 0 implies t.contains(category_of(classes[i])) by {
            if i < d.len() {
                assert(classes[i] == d[i]);
                assert(td.contains(category_of(d[i])));
                let k = choose|k: int| 0 <= k < td.len() && td[k] == category_of(d[i]);
                assert(t[k] == td[k]);
            } else {
                assert(classes[i] == classes.last());
                assert(t[t.len() - 1] == last);
            }
        }
        assert forall|k: int| 0 <= k < t.len() implies (#[trigger] t[k]).id.len() > 0 && t[k].name.len() > 0 by {
            if k < td.len() {
                assert(t[k] == td[k]);
            }
        }
    }
}

/// The category that lists the latest videos of a source.
pub open spec fn latest_category() -> CategoryV {
    CategoryV { id: seq![], parent_id: seq![], name: "最新"@ }
}

/// The categories of a reply: the latest videos first, then the named classes.
pub fn category_list(data: &MacCmsResponse) -> (r: Vec<Category>)
    ensures
        category_views(r@) == seq![latest_category()] + named_categories(data.classes@),
{
    let mut r: Vec<Category> = Vec::new();
    r.push(Category { id: String::new(), parent_id: String::new(), name: String::from_str("最新") });
    let mut i: usize = 0;
    while i < data.classes.len()
        invariant
            i <= data.classes.len(),
            category_views(r@) == seq![latest_category()] + named_categories(data.classes@.take(i as int)),
        decreases data.classes.len() - i,
    {
        proof {
            assert(data.classes@.take(i + 1).drop_last() =~= data.classes@.take(i as int));
        }
        let class = &data.classes[i];
        let id = value_to_id_exec(&class.type_id);
        if !id.as_str().is_empty() {
            let c = Category { id, parent_id: value_to_id_exec(&class.type_pid), name: clean_text_str(&class.class_name) };
            if !c.name.as_str().is_empty() {
                proof {
                    assert(category_views(r@.push(c)) =~= category_views(r@).push(c@));
                }
                r.push(c);
            }
        }
        i += 1;
    }
    assert(data.classes@.take(data.classes.len() as int) =~= data.classes@);
    r
}

pub open spec fn max_u32(a: u32, b: u32) -> u32 {
    if a >= b {
        a
    } else {
        b
    }
}

/// A page of videos: the titled results, the page number (the reply's, but no
/// less than the requested page, itself at least 1), the page count and total.
pub fn library_page(data: &MacCmsResponse, source: &Source, requested: u32) -> (r: LibraryPage)
    ensures
        result_views(r.items@) == titled_results(data.list@, source@),
        r.page == max_u32(json_u32(data.page), max_u32(requested, 1)),
        r.page_count == json_u32(data.pagecount),
        r.total == json_u32(data.total),
{
    let asked = if requested >= 1 {
        requested
    } else {
        1
    };
    let reply_page = deserialize_u32(&data.page);
    LibraryPage {
        items: search_results(data, source),
        page: if reply_page >= asked {
            reply_page
        } else {
            asked
        },
        page_count: deserialize_u32(&data.pagecount),
        total: deserialize_u32(&data.total),
    }
}

/// The video that a detail reply describes: its first listed video.
pub fn detail_result(data: &MacCmsResponse, source: &Source) -> (r: Option<SearchResult>)
    ensures
        match r {
            Some(x) => data.list@.len() > 0 && x@ == search_result_of(data.list@[0], source@),
            None => data.list@.len() == 0,
        },
{
    if data.list.len() == 0 {
        None
    } else {
        Some(into_search_result(&data.list[0], source))
    }
}

// ---------------------------------------------------------------- requests

fn pair(k: &str, v: &str) -> (r: (String, String))
    ensures
        r.0@ == k@,
        r.1@ == v@,
{
    (String::from_str(k), String::from_str(v))
}

/// The query of a keyword search.
pub fn search_params(keyword: &str) -> (r: Vec<(String, String)>)
    ensures
        pair_views(r@) == seq![("ac"@, "videolist"@), ("wd"@, keyword@), ("pg"@, "1"@)],
{
    let mut r: Vec<(String, String)> = Vec::new();
    r.push(pair("ac", "videolist"));
    r.push(pair("wd", keyword));
    r.push(pair("pg", "1"));
    assert(pair_views(r@) =~= seq![("ac"@, "videolist"@), ("wd"@, keyword@), ("pg"@, "1"@)]);
    r
}

/// The query of the category list.
pub fn category_params() -> (r: Vec<(String, String)>)
    ensures
        pair_views(r@) == seq![("ac"@, "list"@)],
{
    let mut r: Vec<(String, String)> = Vec::new();
    r.push(pair("ac", "list"));
    assert(pair_views(r@) =~= seq![("ac"@, "list"@)]);
    r
}

/// The query of a page of videos, of a category when one is given.
pub fn video_params(category_id: &str, page: u32) -> (r: Vec<(String, String)>)
    ensures
        pair_views(r@) == if category_id@.len() == 0 {
            seq![("ac"@, "videolist"@), ("pg"@, decimal(max_u32(page, 1) as nat))]
        } else {
            seq![("ac"@, "videolist"@), ("t"@, category_id@), ("pg"@, decimal(max_u32(page, 1) as nat))]
        },
{
    let p = if page >= 1 {
        page
    } else {
        1
    };
    let ps = string_of(&decimal_vec(p as usize));
    let mut r: Vec<(String, String)> = Vec::new();
    r.push(pair("ac", "videolist"));
    if !category_id.is_empty() {
        r.push(pair("t", category_id));
    }
    r.push((String::from_str("pg"), ps));
    assert(pair_views(r@) =~= if category_id@.len() == 0 {
        seq![("ac"@, "videolist"@), ("pg"@, decimal(max_u32(page, 1) as nat))]
    } else {
        seq![("ac"@, "videolist"@), ("t"@, category_id@), ("pg"@, decimal(max_u32(page, 1) as nat))]
    });
    r
}

/// The query of a video's details.
pub fn detail_params(id: &str) -> (r: Vec<(String, String)>)
    ensures
        pair_views(r@) == seq![("ac"@, "detail"@), ("ids"@, id@)],
{
    let mut r: Vec<(String, String)> = Vec::new();
    r.push(pair("ac", "detail"));
    r.push(pair("ids", id));
    assert(pair_views(r@) =~= seq![("ac"@, "detail"@), ("ids"@, id@)]);
    r
}

/// The request address: the source's API address with the query appended;
/// `None` where the API address is not a URL.
pub fn build_url(base: &str, params: &Vec<(String, String)>) -> (r: Option<String>)
    ensures
        opt_view(r) == url_with_query_pairs(base@, pair_views(params@)),
{
    url_append_query(base, params)
}

// ---------------------------------------------------------------- decoding

/// The encoding label that a `Content-Type` header names: the first
/// `;`-separated part that starts with `charset=`, quotes removed.
pub open spec fn first_charset(parts: Seq<Seq<char>>) -> Option<Seq<char>>
    decreases parts.len(),
{
    if parts.len() == 0 {
        None
    } else {
        let p = trim(parts[0]);
        if "charset="@.is_prefix_of(p) {
            Some(strip_trailing(strip_leading(p.skip("charset="@.len() as int), seq!['"']), '"'))
        } else {
            first_charset(parts.drop_first())
        }
    }
}

pub open spec fn charset_label(content_type: Seq<char>) -> Option<Seq<char>> {
    first_charset(split(content_type, seq![';']))
}

pub fn content_type_charset(content_type: &str) -> (r: Option<String>)
    ensures
        opt_view(r) == charset_label(content_type@),
{
    let c = chars_of(content_type);
    let mut semi: Vec<char> = Vec::new();
    semi.push(';');
    assert(semi@ =~= seq![';']);
    let parts = split_vec(&c, &semi);
    let ghost P = views(parts@);
    let prefix = chars_of("charset=");
    let mut quote: Vec<char> = Vec::new();
    quote.push('"');
    assert(quote@ =~= seq!['"']);
    let mut i: usize = 0;
    assert(P.skip(0) =~= P);
    while i < parts.len()
        invariant
            i <= parts.len(),
            P == views(parts@),
            P == split(content_type@, seq![';']),
            prefix@ == "charset="@,
            quote@ == seq!['"'],
            first_charset(P) == first_charset(P.skip(i as int)),
        decreases parts.len() - i,
    {
        proof {
            assert(P.skip(i as int)[0] == parts@[i as int]@);
            assert(P.skip(i as int).drop_first() =~= P.skip(i + 1));
        }
        let p = trim_vec(&parts[i]);
        if crate::text::starts_with_exec(&p, &prefix) {
            let rest = slice_vec(&p, prefix.len(), p.len());
            assert(rest@ =~= p@.skip("charset="@.len() as int));
            let unquoted = strip_leading_vec(&rest, &quote);
            return Some(string_of(&strip_trailing_vec(&unquoted, '"')));
        }
        i += 1;
    }
    None
}

/// The text of a reply's bytes: decoded with the encoding that the header
/// names when that decodes without errors, else as UTF-8 when that decodes
/// without errors, else as GBK.
pub open spec fn decoded_body(bytes: Seq<u8>, label: Option<Seq<char>>) -> Seq<char> {
    let via_label = match label {
        Some(l) => match decoded_with_label(l, bytes) {
            Some((t, false)) => Some(t),
            _ => None,
        },
        None => None,
    };
    match via_label {
        Some(t) => t,
        None => match decoded_with_label("utf-8"@, bytes) {
            Some((t, false)) => t,
            _ => match decoded_with_label("gbk"@, bytes) {
                Some((t, _)) => t,
                None => seq![],
            },
        },
    }
}

pub fn decode_response_body(bytes: &[u8], label: Option<&str>) -> (r: String)
    ensures
        r@ == decoded_body(bytes@, match label {
            Some(l) => Some(l@),
            None => None,
        }),
{
    match label {
        Some(l) => match decode_with_label(l, bytes) {
            Some((t, false)) => {
                return t;
            },
            _ => {},
        },
        None => {},
    }
    match decode_with_label("utf-8", bytes) {
        Some((t, false)) => {
            return t;
        },
        _ => {},
    }
    match decode_with_label("gbk", bytes) {
        Some((t, _)) => t,
        None => String::new(),
    }
}

} // verus!
