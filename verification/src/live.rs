//! Live sources: their configuration, and the parsing of M3U and TXT channel lists.
use vstd::prelude::*;
use crate::bindings::{decode_html, decode_with_label, decoded_with_label, html_decoded, joined_url, url_join, url_scheme, url_scheme_of};
use crate::order::{
    entry_views, keys_increasing, lemma_map_from_exact, lemma_map_from_shape, lemma_sorted_name_key, lemma_name_key_unique, lemma_sorted_by_name_key, name_key_sorted, sorted_by_name_key, lemma_sort_map, lemma_sorted_by_name, map_from, map_insert_exec, names_sorted,
    sorted_by_name, stable_sort_by_name, text_lt, Named, SortName,
};
use crate::text::{
    chars_of, concat_vec, contains, eq_vec, lower, lower_vec, contains_exec, decimal, decimal_vec, find, find_exec, find_from,
    lemma_find_from, lemma_rfind_from, lines, lines_vec, rfind, rfind_exec, strip_trailing, strip_trailing_vec, replace, replace_vec, slice_vec, starts_with_exec,
    string_of, trim, trim_vec, views,
};

verus! {

broadcast use vstd::string::group_string_axioms;

/// The user agent that live sources are fetched with when they name none.
pub const DEFAULT_LIVE_USER_AGENT: &'static str = "AptvPlayer/1.4.10";

/// One entry of the live source configuration file.
#[derive(Debug, Clone)]
pub struct LiveSourceEntry {
    pub name: String,
    pub url: String,
    pub ua: Option<String>,
    pub epg: Option<String>,
    pub enabled: Option<bool>,
}

/// The live source configuration file: its entries in the order of their
/// keys, which strictly increase (`keys_increasing`), as a map's do.
#[derive(Debug, Clone, Default)]
pub struct LiveConfigFile {
    pub lives: Vec<(String, LiveSourceEntry)>,
}

#[derive(Debug, Clone, Default)]
pub struct LiveSource {
    pub key: String,
    pub name: String,
    pub url: String,
    pub ua: Option<String>,
    pub epg: Option<String>,
    pub enabled: bool,
}

#[derive(Debug, Clone, Default)]
pub struct LiveChannel {
    pub id: String,
    pub source: String,
    pub source_name: String,
    pub tvg_id: String,
    pub name: String,
    pub logo: String,
    pub group: String,
    pub url: String,
}

#[derive(Debug, Clone, Default)]
pub struct LivePlaylist {
    pub epg_url: Option<String>,
    pub channels: Vec<LiveChannel>,
}

pub open spec fn opt_view(o: Option<String>) -> Option<Seq<char>> {
    match o {
        Some(s) => Some(s@),
        None => None,
    }
}

pub struct LiveSourceV {
    pub key: Seq<char>,
    pub name: Seq<char>,
    pub url: Seq<char>,
    pub ua: Option<Seq<char>>,
    pub epg: Option<Seq<char>>,
    pub enabled: bool,
}

impl View for LiveSource {
    type V = LiveSourceV;

    open spec fn view(&self) -> LiveSourceV {
        LiveSourceV {
            key: self.key@,
            name: self.name@,
            url: self.url@,
            ua: opt_view(self.ua),
            epg: opt_view(self.epg),
            enabled: self.enabled,
        }
    }
}

pub struct LiveChannelV {
    pub id: Seq<char>,
    pub source: Seq<char>,
    pub source_name: Seq<char>,
    pub tvg_id: Seq<char>,
    pub name: Seq<char>,
    pub logo: Seq<char>,
    pub group: Seq<char>,
    pub url: Seq<char>,
}

impl View for LiveChannel {
    type V = LiveChannelV;

    open spec fn view(&self) -> LiveChannelV {
        LiveChannelV {
            id: self.id@,
            source: self.source@,
            source_name: self.source_name@,
            tvg_id: self.tvg_id@,
            name: self.name@,
            logo: self.logo@,
            group: self.group@,
            url: self.url@,
        }
    }
}

pub open spec fn channel_views(s: Seq<LiveChannel>) -> Seq<LiveChannelV> {
    s.map_values(|c: LiveChannel| c@)
}

pub struct LivePlaylistV {
    pub epg_url: Option<Seq<char>>,
    pub channels: Seq<LiveChannelV>,
}

impl View for LivePlaylist {
    type V = LivePlaylistV;

    open spec fn view(&self) -> LivePlaylistV {
        LivePlaylistV { epg_url: opt_view(self.epg_url), channels: channel_views(self.channels@) }
    }
}

pub open spec fn opt_vec_view(o: Option<Vec<char>>) -> Option<Seq<char>> {
    match o {
        Some(v) => Some(v@),
        None => None,
    }
}

// ---------------------------------------------------------------- shared text helpers

/// The group of channels that name none.
pub open spec fn ungrouped() -> Seq<char> {
    "未分组"@
}

pub open spec fn strip_bom(s: Seq<char>) -> Seq<char> {
    if s.len() > 0 && s[0] == '\u{feff}' {
        s.drop_first()
    } else {
        s
    }
}

pub fn strip_bom_vec(v: &Vec<char>) -> (r: Vec<char>)
    ensures
        r@ == strip_bom(v@),
{
    if v.len() > 0 && v[0] == '\u{feff}' {
        let r = slice_vec(v, 1, v.len());
        assert(r@ =~= v@.drop_first());
        r
    } else {
        v.clone()
    }
}

/// Entities decoded after trimming, and `&amp%3B` (either case of the `B`) turned into `&`.
pub open spec fn clean_live_text(s: Seq<char>) -> Seq<char> {
    replace(replace(html_decoded(trim(s)), "&amp%3B"@, "&"@), "&amp%3b"@, "&"@)
}

pub fn clean_live_text_vec(v: &Vec<char>) -> (r: Vec<char>)
    ensures
        r@ == clean_live_text(v@),
{
    let t = trim_vec(v);
    let ts = string_of(&t);
    let decoded = decode_html(ts.as_str());
    let d = chars_of(decoded.as_str());
    let upper = chars_of("&amp%3B");
    let lowerb = chars_of("&amp%3b");
    let amp = chars_of("&");
    proof {
        reveal_strlit("&amp%3B");
        reveal_strlit("&amp%3b");
    }
    let r1 = replace_vec(&d, &upper, &amp);
    replace_vec(&r1, &lowerb, &amp)
}

/// Non-empty lines with a leading byte-order mark removed and white space trimmed.
pub open spec fn prepare_lines(ls: Seq<Seq<char>>) -> Seq<Seq<char>>
    decreases ls.len(),
{
    if ls.len() == 0 {
        seq![]
    } else {
        let rest = prepare_lines(ls.drop_last());
        let t = trim(strip_bom(ls.last()));
        if t.len() > 0 {
            rest.push(t)
        } else {
            rest
        }
    }
}

pub open spec fn live_lines(content: Seq<char>) -> Seq<Seq<char>> {
    prepare_lines(lines(content))
}

pub fn live_lines_vec(content: &Vec<char>) -> (r: Vec<Vec<char>>)
    ensures
        views(r@) == live_lines(content@),
{
    let raw = lines_vec(content);
    let mut r: Vec<Vec<char>> = Vec::new();
    let mut i: usize = 0;
    while i < raw.len()
        invariant
            i <= raw.len(),
            views(r@) == prepare_lines(views(raw@).take(i as int)),
        decreases raw.len() - i,
    {
        let b = strip_bom_vec(&raw[i]);
        let t = trim_vec(&b);
        proof {
            assert(views(raw@).take(i + 1).drop_last() =~= views(raw@).take(i as int));
            assert(views(raw@).take(i + 1).last() == raw@[i as int]@);
        }
        if t.len() > 0 {
            proof {
                assert(views(r@.push(t)) =~= views(r@).push(t@));
            }
            r.push(t);
        }
        i += 1;
    }
    assert(views(raw@).take(raw.len() as int) =~= views(raw@));
    r
}

/// The value of `key="..."` in a line, cleaned.
pub open spec fn attr_value(line: Seq<char>, key: Seq<char>) -> Option<Seq<char>> {
    let pat = key + "=\""@;
    match find(line, pat) {
        None => None,
        Some(i) => {
            let rest = line.subrange(i + pat.len(), line.len() as int);
            match find(rest, seq!['"']) {
                None => None,
                Some(j) => Some(clean_live_text(rest.subrange(0, j))),
            }
        },
    }
}

pub fn attr_value_vec(line: &Vec<char>, key: &str) -> (r: Option<Vec<char>>)
    ensures
        opt_vec_view(r) == attr_value(line@, key@),
{
    let k = chars_of(key);
    let suffix = chars_of("=\"");
    let pat = concat_vec(&k, &suffix);
    proof {
        lemma_find_from(line@, pat@, 0);
    }
    match find_exec(line, &pat) {
        None => None,
        Some(i) => {
            assert(find_from(line@, pat@, 0) == Some(i as int));
            let n = line.len();
            assert(i + pat@.len() <= n);
            let rest = slice_vec(line, i + pat.len(), n);
            let mut quote: Vec<char> = Vec::new();
            quote.push('"');
            assert(quote@ =~= seq!['"']);
            proof {
                lemma_find_from(rest@, quote@, 0);
            }
            match find_exec(&rest, &quote) {
                None => None,
                Some(j) => {
                    let inner = slice_vec(&rest, 0, j);
                    Some(clean_live_text_vec(&inner))
                },
            }
        },
    }
}

/// A channel address resolved against the source's URL.
pub open spec fn resolve_live_url(base: Seq<char>, value: Seq<char>) -> Option<Seq<char>> {
    let v = trim(clean_live_text(value));
    if contains(v, "://"@) {
        Some(v)
    } else if "//"@.is_prefix_of(v) {
        match url_scheme_of(base) {
            Some(scheme) => Some(scheme + ":"@ + v),
            None => None,
        }
    } else {
        joined_url(base, v)
    }
}

pub fn resolve_live_url_vec(base: &String, value: &Vec<char>) -> (r: Option<Vec<char>>)
    ensures
        opt_vec_view(r) == resolve_live_url(base@, value@),
        r matches Some(u) ==> u@.len() > 0,
{
    let c = clean_live_text_vec(value);
    let v = trim_vec(&c);
    let sep = chars_of("://");
    if contains_exec(&v, &sep) {
        proof {
            reveal_strlit("://");
            lemma_find_from(v@, sep@, 0);
        }
        return Some(v);
    }
    let slashes = chars_of("//");
    proof {
        reveal_strlit("//");
    }
    if starts_with_exec(&v, &slashes) {
        match url_scheme(base.as_str()) {
            Some(scheme) => {
                let s = chars_of(scheme.as_str());
                let colon = chars_of(":");
                let sc = concat_vec(&s, &colon);
                Some(concat_vec(&sc, &v))
            },
            None => None,
        }
    } else {
        let vs = string_of(&v);
        match url_join(base.as_str(), vs.as_str()) {
            Some(u) => Some(chars_of(u.as_str())),
            None => None,
        }
    }
}

/// The playlist's guide address when the source names one that is not blank.
pub open spec fn nonblank(o: Option<Seq<char>>) -> Option<Seq<char>> {
    match o {
        Some(v) => if trim(v).len() > 0 {
            Some(v)
        } else {
            None
        },
        None => None,
    }
}

pub fn nonblank_opt(o: &Option<String>) -> (r: Option<String>)
    ensures
        opt_view(r) == nonblank(opt_view(*o)),
{
    match o {
        Some(v) => {
            let c = chars_of(v.as_str());
            let t = trim_vec(&c);
            if t.len() > 0 {
                Some(string_of(&c))
            } else {
                None
            }
        },
        None => None,
    }
}

/// The identifier of the `n`-th channel of a source.
pub open spec fn channel_id(key: Seq<char>, n: nat) -> Seq<char> {
    key + "-"@ + decimal(n)
}

pub fn channel_id_string(key: &String, n: usize) -> (r: String)
    ensures
        r@ == channel_id(key@, n as nat),
{
    let k = chars_of(key.as_str());
    let dash = chars_of("-");
    let d = decimal_vec(n);
    let kd = concat_vec(&k, &dash);
    string_of(&concat_vec(&kd, &d))
}

pub fn copy_string(s: &String) -> (r: String)
    ensures
        r@ == s@,
{
    s.clone()
}


// ---------------------------------------------------------------- M3U

/// Looks from line `j` on for the address of a channel: the first line that is
/// not a tag, unless another `#EXTINF:` comes first.  Returns the resolved
/// address and the line where the search stopped.
pub open spec fn m3u_url_scan(base: Seq<char>, ls: Seq<Seq<char>>, j: int) -> (Option<Seq<char>>, int)
    decreases ls.len() - j,
{
    if j < 0 || j >= ls.len() {
        (None, j)
    } else if "#EXTINF:"@.is_prefix_of(ls[j]) {
        (None, j)
    } else if !seq!['#'].is_prefix_of(ls[j]) {
        (resolve_live_url(base, ls[j]), j)
    } else {
        m3u_url_scan(base, ls, j + 1)
    }
}

pub proof fn lemma_scan_bounds(base: Seq<char>, ls: Seq<Seq<char>>, j: int)
    requires
        0 <= j <= ls.len(),
    ensures
        j <= m3u_url_scan(base, ls, j).1 <= ls.len(),
    decreases ls.len() - j,
{
    if j < ls.len() && !"#EXTINF:"@.is_prefix_of(ls[j]) && seq!['#'].is_prefix_of(ls[j]) {
        lemma_scan_bounds(base, ls, j + 1);
    }
}

pub open spec fn m3u_title(line: Seq<char>) -> Seq<char> {
    match rfind(line, ',') {
        Some(k) => clean_live_text(line.subrange(k + 1, line.len() as int)),
        None => seq![],
    }
}

/// The channel's name: the title after the last comma, else the `tvg-name` attribute.
pub open spec fn m3u_name(line: Seq<char>) -> Seq<char> {
    let t = m3u_title(line);
    if t.len() > 0 {
        t
    } else {
        match attr_value(line, "tvg-name"@) {
            Some(n) => n,
            None => seq![],
        }
    }
}

/// The channel's group: its `group-title`, else a pending `#EXTGRP`, unless blank.
pub open spec fn m3u_group(attr: Option<Seq<char>>, pending: Option<Seq<char>>) -> Seq<char> {
    let g = match attr {
        Some(a) => Some(a),
        None => pending,
    };
    match g {
        Some(v) => if trim(v).len() > 0 {
            v
        } else {
            ungrouped()
        },
        None => ungrouped(),
    }
}

pub open spec fn m3u_channel(
    src: LiveSourceV,
    line: Seq<char>,
    name: Seq<char>,
    url: Seq<char>,
    pending: Option<Seq<char>>,
    n: nat,
) -> LiveChannelV {
    LiveChannelV {
        id: channel_id(src.key, n),
        source: src.key,
        source_name: src.name,
        tvg_id: match attr_value(line, "tvg-id"@) {
            Some(t) => t,
            None => name,
        },
        name: name,
        logo: match attr_value(line, "tvg-logo"@) {
            Some(l) => match resolve_live_url(src.url, l) {
                Some(x) => x,
                None => seq![],
            },
            None => seq![],
        },
        group: m3u_group(attr_value(line, "group-title"@), pending),
        url: url,
    }
}

/// The channels of the prepared M3U lines from line `index` on, with a pending
/// `#EXTGRP` group and `n` channels found before.
pub open spec fn m3u_channels(
    src: LiveSourceV,
    ls: Seq<Seq<char>>,
    index: int,
    pending: Option<Seq<char>>,
    n: nat,
) -> Seq<LiveChannelV>
    decreases ls.len() + 1 - index,
{
    if index < 0 || index >= ls.len() {
        seq![]
    } else {
        let line = ls[index];
        if "#EXTGRP:"@.is_prefix_of(line) {
            let g = clean_live_text(line.skip("#EXTGRP:"@.len() as int));
            m3u_channels(
                src,
                ls,
                index + 1,
                if g.len() > 0 {
                    Some(g)
                } else {
                    pending
                },
                n,
            )
        } else if !"#EXTINF:"@.is_prefix_of(line) {
            m3u_channels(src, ls, index + 1, pending, n)
        } else {
            let name = m3u_name(line);
            if name.len() == 0 {
                m3u_channels(src, ls, index + 1, pending, n)
            } else {
                let scan = m3u_url_scan(src.url, ls, index + 1);
                proof {
                    lemma_scan_bounds(src.url, ls, index + 1);
                }
                match scan.0 {
                    Some(u) => seq![m3u_channel(src, line, name, u, pending, n)] + m3u_channels(
                        src,
                        ls,
                        scan.1 + 1,
                        if attr_value(line, "group-title"@) is Some {
                            pending
                        } else {
                            None
                        },
                        n + 1,
                    ),
                    None => m3u_channels(
                        src,
                        ls,
                        if scan.1 > index + 1 {
                            scan.1
                        } else {
                            index + 1
                        },
                        pending,
                        n,
                    ),
                }
            }
        }
    }
}

/// The guide address that an `#EXTM3U` header before the first `#EXTINF:` names.
pub open spec fn m3u_epg(ls: Seq<Seq<char>>, i: int) -> Option<Seq<char>>
    decreases ls.len() - i,
{
    if i < 0 || i >= ls.len() {
        None
    } else {
        let line = ls[i];
        if "#EXTINF:"@.is_prefix_of(line) {
            None
        } else if !"#EXTM3U"@.is_prefix_of(line) {
            m3u_epg(ls, i + 1)
        } else {
            let v = match attr_value(line, "x-tvg-url"@) {
                Some(x) => Some(x),
                None => attr_value(line, "url-tvg"@),
            };
            match v {
                Some(x) => {
                    let t = strip_trailing(trim(x), ',');
                    if t.len() > 0 {
                        Some(t)
                    } else {
                        m3u_epg(ls, i + 1)
                    }
                },
                None => m3u_epg(ls, i + 1),
            }
        }
    }
}

pub open spec fn parse_m3u(src: LiveSourceV, content: Seq<char>) -> LivePlaylistV {
    let ls = live_lines(content);
    LivePlaylistV {
        epg_url: match m3u_epg(ls, 0) {
            Some(e) => Some(e),
            None => nonblank(src.epg),
        },
        channels: m3u_channels(src, ls, 0, None, 0),
    }
}

/// The guide address named by an `x-tvg-url` (or, where that attribute is
/// absent, a `url-tvg`) attribute of an `#EXTM3U` header line, trimmed and
/// stripped of trailing commas.
pub open spec fn header_guide(line: Seq<char>) -> Option<Seq<char>> {
    let v = if attr_value(line, "x-tvg-url"@) is Some {
        attr_value(line, "x-tvg-url"@)
    } else {
        attr_value(line, "url-tvg"@)
    };
    match v {
        Some(x) => Some(strip_trailing(trim(x), ',')),
        None => None,
    }
}

proof fn lemma_epg_skips_plain(ls: Seq<Seq<char>>, k: int, h: int)
    requires
        0 <= k <= h < ls.len(),
        forall|j: int| 0 <= j < h ==> !"#EXTINF:"@.is_prefix_of(#[trigger] ls[j]) && !"#EXTM3U"@.is_prefix_of(ls[j]),
    ensures
        m3u_epg(ls, k) == m3u_epg(ls, h),
    decreases h - k,
{
    if k < h {
        assert(!"#EXTINF:"@.is_prefix_of(ls[k]) && !"#EXTM3U"@.is_prefix_of(ls[k]));
        lemma_epg_skips_plain(ls, k + 1, h);
    }
}

/// In an M3U text, the first `#EXTM3U` header line (coming before any
/// `#EXTINF:` line) gives the playlist its guide address: the value of its
/// `x-tvg-url` attribute, or of `url-tvg` where `x-tvg-url` is absent, once
/// trimmed and stripped of trailing commas, whenever that value is not blank.
/// This holds whatever guide the source itself names.
pub proof fn law_m3u_header_guide(src: LiveSourceV, content: Seq<char>, h: int)
    requires
        is_m3u_content(content),
        0 <= h < live_lines(content).len(),
        "#EXTM3U"@.is_prefix_of(live_lines(content)[h]),
        forall|j: int| 0 <= j < h ==> !"#EXTINF:"@.is_prefix_of(#[trigger] live_lines(content)[j]) && !"#EXTM3U"@.is_prefix_of(live_lines(content)[j]),
        header_guide(live_lines(content)[h]) matches Some(g) && g.len() > 0,
    ensures
        parsed_live_playlist(src, content).epg_url == header_guide(live_lines(content)[h]),
{
    let ls = live_lines(content);
    lemma_epg_skips_plain(ls, 0, h);
    reveal_strlit("#EXTINF:");
    reveal_strlit("#EXTM3U");
    let line = ls[h];
    assert(line.subrange(0, 7) =~= "#EXTM3U"@);
    assert(line.subrange(0, 7)[4] == line[4]);
    assert("#EXTM3U"@[4] == 'M');
    assert("#EXTINF:"@[4] == 'I');
    if "#EXTINF:"@.is_prefix_of(line) {
        assert(line.subrange(0, 8)[4] == line[4]);
        assert(line.subrange(0, 8) =~= "#EXTINF:"@);
    }
}

proof fn lemma_epg_without_header(ls: Seq<Seq<char>>, k: int)
    requires
        0 <= k,
        forall|m: int| 0 <= m < ls.len() ==> !"#EXTM3U"@.is_prefix_of(#[trigger] ls[m]),
    ensures
        m3u_epg(ls, k) is None,
    decreases ls.len() - k,
{
    if k < ls.len() {
        assert(!"#EXTM3U"@.is_prefix_of(ls[k]));
        lemma_epg_without_header(ls, k + 1);
    }
}

/// A list with no `#EXTM3U` header line (a TXT list among them) takes the
/// guide address that its source names, when that is not blank, and has none
/// otherwise.
pub proof fn law_source_guide_fallback(src: LiveSourceV, content: Seq<char>)
    requires
        forall|m: int| 0 <= m < live_lines(content).len() ==> !"#EXTM3U"@.is_prefix_of(#[trigger] live_lines(content)[m]),
    ensures
        parsed_live_playlist(src, content).epg_url == match src.epg {
            Some(v) => if trim(v).len() > 0 {
                Some(v)
            } else {
                None
            },
            None => None,
        },
{
    lemma_epg_without_header(live_lines(content), 0);
}

fn m3u_url_scan_vec(base: &String, ls: &Vec<Vec<char>>, start: usize) -> (r: (Option<Vec<char>>, usize))
    requires
        start <= ls.len(),
    ensures
        (opt_vec_view(r.0), r.1 as int) == m3u_url_scan(base@, views(ls@), start as int),
        r.0 matches Some(u) ==> u@.len() > 0,
{
    let extinf = chars_of("#EXTINF:");
    let mut hash: Vec<char> = Vec::new();
    hash.push('#');
    assert(hash@ =~= seq!['#']);
    let mut j = start;
    while j < ls.len()
        invariant
            start <= j <= ls.len(),
            extinf@ == "#EXTINF:"@,
            hash@ == seq!['#'],
            m3u_url_scan(base@, views(ls@), start as int) == m3u_url_scan(base@, views(ls@), j as int),
        decreases ls.len() - j,
    {
        let candidate = &ls[j];
        if starts_with_exec(candidate, &extinf) {
            return (None, j);
        }
        if !starts_with_exec(candidate, &hash) {
            return (resolve_live_url_vec(base, candidate), j);
        }
        j += 1;
    }
    (None, j)
}

fn m3u_name_vec(line: &Vec<char>) -> (r: Vec<char>)
    ensures
        r@ == m3u_name(line@),
{
    let title = match rfind_exec(line, ',') {
        Some(k) => {
            proof {
                lemma_rfind_from(line@, ',', line@.len() as int);
            }
            let n = line.len();
            let t = slice_vec(line, k + 1, n);
            clean_live_text_vec(&t)
        },
        None => Vec::new(),
    };
    assert(title@ == m3u_title(line@));
    if title.len() > 0 {
        title
    } else {
        match attr_value_vec(line, "tvg-name") {
            Some(n) => n,
            None => Vec::new(),
        }
    }
}

fn m3u_channel_make(
    source: &LiveSource,
    line: &Vec<char>,
    name: Vec<char>,
    url: Vec<char>,
    pending: &Option<Vec<char>>,
    n: usize,
) -> (r: LiveChannel)
    ensures
        r@ == m3u_channel(source@, line@, name@, url@, opt_vec_view(*pending), n as nat),
{
    let tvg_id = match attr_value_vec(line, "tvg-id") {
        Some(t) => t,
        None => name.clone(),
    };
    let logo = match attr_value_vec(line, "tvg-logo") {
        Some(l) => match resolve_live_url_vec(&source.url, &l) {
            Some(x) => x,
            None => Vec::new(),
        },
        None => Vec::new(),
    };
    let attr = attr_value_vec(line, "group-title");
    let g = match attr {
        Some(a) => Some(a),
        None => match pending {
            Some(p) => Some(p.clone()),
            None => None,
        },
    };
    let group = match g {
        Some(v) => {
            let t = trim_vec(&v);
            if t.len() > 0 {
                string_of(&v)
            } else {
                String::from_str("未分组")
            }
        },
        None => String::from_str("未分组"),
    };
    LiveChannel {
        id: channel_id_string(&source.key, n),
        source: copy_string(&source.key),
        source_name: copy_string(&source.name),
        tvg_id: string_of(&tvg_id),
        name: string_of(&name),
        logo: string_of(&logo),
        group,
        url: string_of(&url),
    }
}

fn m3u_epg_vec(ls: &Vec<Vec<char>>) -> (r: Option<String>)
    ensures
        opt_view(r) == m3u_epg(views(ls@), 0),
{
    let extinf = chars_of("#EXTINF:");
    let extm3u = chars_of("#EXTM3U");
    let mut i: usize = 0;
    while i < ls.len()
        invariant
            i <= ls.len(),
            extinf@ == "#EXTINF:"@,
            extm3u@ == "#EXTM3U"@,
            m3u_epg(views(ls@), 0) == m3u_epg(views(ls@), i as int),
        decreases ls.len() - i,
    {
        let line = &ls[i];
        if starts_with_exec(line, &extinf) {
            return None;
        }
        if starts_with_exec(line, &extm3u) {
            let v = match attr_value_vec(line, "x-tvg-url") {
                Some(x) => Some(x),
                None => attr_value_vec(line, "url-tvg"),
            };
            match v {
                Some(x) => {
                    let tx = trim_vec(&x);
                    let t = strip_trailing_vec(&tx, ',');
                    if t.len() > 0 {
                        return Some(string_of(&t));
                    }
                },
                None => {},
            }
        }
        i += 1;
    }
    None
}

/// Every channel has an address.
pub open spec fn channels_have_urls(cs: Seq<LiveChannel>) -> bool {
    forall|k: int| 0 <= k < cs.len() ==> (#[trigger] cs[k]).url@.len() > 0
}

fn parse_m3u_vec(source: &LiveSource, content: &Vec<char>) -> (r: LivePlaylist)
    ensures
        r@ == parse_m3u(source@, content@),
        channels_have_urls(r.channels@),
{
    let ls = live_lines_vec(content);
    let ghost L = views(ls@);
    let ghost src = source@;
    let extgrp = chars_of("#EXTGRP:");
    let extinf = chars_of("#EXTINF:");
    let mut channels: Vec<LiveChannel> = Vec::new();
    let mut index: usize = 0;
    let mut pending: Option<Vec<char>> = None;
    assert(channel_views(channels@) + m3u_channels(src, L, 0, None, 0) =~= m3u_channels(src, L, 0, None, 0));
    while index < ls.len()
        invariant
            index <= ls.len(),
            L == views(ls@),
            src == source@,
            extgrp@ == "#EXTGRP:"@,
            extinf@ == "#EXTINF:"@,
            channel_views(channels@) + m3u_channels(src, L, index as int, opt_vec_view(pending), channels.len() as nat)
                == m3u_channels(src, L, 0, None, 0),
            channels_have_urls(channels@),
        decreases ls.len() - index,
    {
        let ghost before = channel_views(channels@);
        let line = &ls[index];
        assert(L[index as int] == line@);
        if starts_with_exec(line, &extgrp) {
            let rest = slice_vec(line, extgrp.len(), line.len());
            assert(rest@ =~= line@.skip("#EXTGRP:"@.len() as int));
            let g = clean_live_text_vec(&rest);
            if g.len() > 0 {
                pending = Some(g);
            }
            index += 1;
            continue;
        }
        if !starts_with_exec(line, &extinf) {
            index += 1;
            continue;
        }
        let name = m3u_name_vec(line);
        if name.len() == 0 {
            index += 1;
            continue;
        }
        let scan = m3u_url_scan_vec(&source.url, &ls, index + 1);
        proof {
            lemma_scan_bounds(src.url, L, index + 1);
        }
        let url_index = scan.1;
        match scan.0 {
            Some(u) => {
                let has_group_attr = attr_value_vec(line, "group-title").is_some();
                let ch = m3u_channel_make(source, line, name, u, &pending, channels.len());
                proof {
                    assert(channel_views(channels@.push(ch)) =~= before.push(ch@));
                    assert(ch.url@ == u@);
                    assert forall|k: int| 0 <= k < channels@.push(ch).len() implies (#[trigger] channels@.push(ch)[k]).url@.len() > 0 by {
                        if k < channels@.len() {
                            assert(channels@.push(ch)[k] == channels@[k]);
                        }
                    }
                }
                channels.push(ch);
                if !has_group_attr {
                    pending = None;
                }
                index = if url_index < ls.len() { url_index + 1 } else { ls.len() };
                proof {
                    assert(m3u_channels(src, L, index as int, opt_vec_view(pending), channels.len() as nat)
                        == m3u_channels(src, L, url_index + 1, opt_vec_view(pending), channels.len() as nat));
                    assert(before.push(ch@) + m3u_channels(src, L, index as int, opt_vec_view(pending), channels.len() as nat)
                        =~= before + (seq![ch@] + m3u_channels(src, L, index as int, opt_vec_view(pending), channels.len() as nat)));
                }
            },
            None => {
                index = if url_index > index + 1 { url_index } else { index + 1 };
            },
        }
    }
    proof {
        assert(m3u_channels(src, L, index as int, opt_vec_view(pending), channels.len() as nat) == Seq::<LiveChannelV>::empty());
        assert(channel_views(channels@) + Seq::<LiveChannelV>::empty() =~= channel_views(channels@));
    }
    let epg = match m3u_epg_vec(&ls) {
        Some(e) => Some(e),
        None => nonblank_opt(&source.epg),
    };
    LivePlaylist { epg_url: epg, channels }
}


// ---------------------------------------------------------------- TXT

/// A `name,#genre#` line names the group of the channels below it.
pub open spec fn txt_group_name(line: Seq<char>) -> Option<Seq<char>> {
    match rfind(line, ',') {
        None => None,
        Some(k) => {
            let name = trim(line.subrange(0, k));
            let value = trim(line.subrange(k + 1, line.len() as int));
            if value == "#genre#"@ && name.len() > 0 {
                Some(name)
            } else {
                None
            }
        },
    }
}

fn txt_group_name_vec(line: &Vec<char>) -> (r: Option<Vec<char>>)
    ensures
        opt_vec_view(r) == txt_group_name(line@),
{
    match rfind_exec(line, ',') {
        None => None,
        Some(k) => {
            proof {
                lemma_rfind_from(line@, ',', line@.len() as int);
            }
            let n = line.len();
            let name_raw = slice_vec(line, 0, k);
            let value_raw = slice_vec(line, k + 1, n);
            let name = trim_vec(&name_raw);
            let value = trim_vec(&value_raw);
            let genre = chars_of("#genre#");
            if eq_vec(&value, &genre) && name.len() > 0 {
                Some(name)
            } else {
                None
            }
        },
    }
}

/// The separators between a channel's name and its address in a TXT list.
pub open spec fn txt_markers() -> Seq<Seq<char>> {
    seq![",http://"@, ",https://"@, ",rtmp://"@, ",rtsp://"@, ",rtp://"@, ",udp://"@]
}

pub open spec fn min_opt(a: Option<int>, b: Option<int>) -> Option<int> {
    match (a, b) {
        (Some(x), Some(y)) => Some(if x <= y { x } else { y }),
        (Some(x), None) => Some(x),
        (None, y) => y,
    }
}

/// The first position where any of `ms` occurs in `s`.
pub open spec fn earliest(s: Seq<char>, ms: Seq<Seq<char>>) -> Option<int>
    decreases ms.len(),
{
    if ms.len() == 0 {
        None
    } else {
        min_opt(earliest(s, ms.drop_last()), find(s, ms.last()))
    }
}

/// A TXT line split into the channel's name and its address at the first
/// separator (found ignoring ASCII case), both trimmed and not empty.
pub open spec fn split_txt_channel_line(line: Seq<char>) -> Option<(Seq<char>, Seq<char>)> {
    match earliest(lower(line), txt_markers()) {
        None => None,
        Some(k) => {
            let name = trim(line.subrange(0, k));
            let value = trim(line.subrange(k + 1, line.len() as int));
            if name.len() == 0 || value.len() == 0 {
                None
            } else {
                Some((name, value))
            }
        },
    }
}

fn txt_markers_vec() -> (r: Vec<Vec<char>>)
    ensures
        views(r@) == txt_markers(),
        forall|i: int| 0 <= i < r@.len() ==> r@[i]@.len() > 0,
{
    let mut r: Vec<Vec<char>> = Vec::new();
    r.push(chars_of(",http://"));
    r.push(chars_of(",https://"));
    r.push(chars_of(",rtmp://"));
    r.push(chars_of(",rtsp://"));
    r.push(chars_of(",rtp://"));
    r.push(chars_of(",udp://"));
    proof {
        reveal_strlit(",http://");
        reveal_strlit(",https://");
        reveal_strlit(",rtmp://");
        reveal_strlit(",rtsp://");
        reveal_strlit(",rtp://");
        reveal_strlit(",udp://");
        assert(views(r@) =~= txt_markers());
    }
    r
}

fn split_txt_channel_line_vec(line: &Vec<char>) -> (r: Option<(Vec<char>, Vec<char>)>)
    ensures
        match r {
            Some((a, b)) => split_txt_channel_line(line@) == Some((a@, b@)),
            None => split_txt_channel_line(line@) is None,
        },
{
    let lowered = lower_vec(line);
    let markers = txt_markers_vec();
    let mut best: Option<usize> = None;
    let mut m: usize = 0;
    while m < markers.len()
        invariant
            m <= markers.len(),
            lowered@ == lower(line@),
            views(markers@) == txt_markers(),
            forall|i: int| 0 <= i < markers@.len() ==> markers@[i]@.len() > 0,
            match best {
                Some(k) => earliest(lower(line@), views(markers@).take(m as int)) == Some(k as int)
                    && k < line@.len(),
                None => earliest(lower(line@), views(markers@).take(m as int)) is None,
            },
        decreases markers.len() - m,
    {
        proof {
            lemma_find_from(lowered@, markers@[m as int]@, 0);
            assert(views(markers@).take(m + 1).drop_last() =~= views(markers@).take(m as int));
        }
        let found = find_exec(&lowered, &markers[m]);
        best = match (best, found) {
            (Some(x), Some(y)) => Some(if x <= y { x } else { y }),
            (Some(x), None) => Some(x),
            (None, y) => y,
        };
        m += 1;
    }
    assert(views(markers@).take(markers.len() as int) =~= views(markers@));
    match best {
        None => None,
        Some(k) => {
            let n = line.len();
            let name_raw = slice_vec(line, 0, k);
            let value_raw = slice_vec(line, k + 1, n);
            let name = trim_vec(&name_raw);
            let value = trim_vec(&value_raw);
            if name.len() == 0 || value.len() == 0 {
                None
            } else {
                Some((name, value))
            }
        },
    }
}

pub open spec fn txt_channel(src: LiveSourceV, name: Seq<char>, group: Seq<char>, url: Seq<char>, n: nat) -> LiveChannelV {
    LiveChannelV {
        id: channel_id(src.key, n),
        source: src.key,
        source_name: src.name,
        tvg_id: name,
        name: name,
        logo: seq![],
        group: group,
        url: url,
    }
}

/// The channels of the prepared TXT lines from line `i` on, in the current
/// group, with a pending partial line and `n` channels found before.
pub open spec fn txt_channels(
    src: LiveSourceV,
    ls: Seq<Seq<char>>,
    i: int,
    group: Seq<char>,
    pending: Seq<char>,
    n: nat,
) -> Seq<LiveChannelV>
    decreases ls.len() - i,
{
    if i < 0 || i >= ls.len() {
        seq![]
    } else {
        let line = clean_live_text(ls[i]);
        match txt_group_name(line) {
            Some(g) => txt_channels(src, ls, i + 1, g, seq![], n),
            None => {
                let cand = if pending.len() == 0 {
                    line
                } else {
                    pending + " "@ + line
                };
                match split_txt_channel_line(cand) {
                    None => txt_channels(src, ls, i + 1, group, cand, n),
                    Some(p) => match resolve_live_url(src.url, p.1) {
                        None => txt_channels(src, ls, i + 1, group, seq![], n),
                        Some(u) => seq![txt_channel(src, p.0, group, u, n)] + txt_channels(
                            src,
                            ls,
                            i + 1,
                            group,
                            seq![],
                            n + 1,
                        ),
                    },
                }
            },
        }
    }
}

/// The group that the last `name,#genre#` line before line `i` names, else
/// the default group.
pub open spec fn txt_group_before(ls: Seq<Seq<char>>, i: int) -> Seq<char>
    decreases i,
{
    if i <= 0 || i > ls.len() {
        ungrouped()
    } else {
        match txt_group_name(clean_live_text(ls[i - 1])) {
            Some(g) => g,
            None => txt_group_before(ls, i - 1),
        }
    }
}

/// Whether channel `c` ends on a line at or after `i` that names no group,
/// and is in the group of the last group line before that line.
pub open spec fn txt_channel_after(ls: Seq<Seq<char>>, c: LiveChannelV, i: int) -> bool {
    exists|m: int| {
        &&& i <= m < ls.len()
        &&& txt_group_name(clean_live_text(#[trigger] ls[m])) is None
        &&& c.group == txt_group_before(ls, m)
    }
}

proof fn lemma_txt_channels_grouped(src: LiveSourceV, ls: Seq<Seq<char>>, i: int, group: Seq<char>, pending: Seq<char>, n: nat)
    requires
        0 <= i <= ls.len(),
        group == txt_group_before(ls, i),
    ensures
        forall|k: int| 0 <= k < txt_channels(src, ls, i, group, pending, n).len()
            ==> #[trigger] txt_channel_after(ls, txt_channels(src, ls, i, group, pending, n)[k], i),
    decreases ls.len() - i,
{
    let cs = txt_channels(src, ls, i, group, pending, n);
    if i < ls.len() {
        let line = clean_live_text(ls[i]);
        match txt_group_name(line) {
            Some(g) => {
                lemma_txt_channels_grouped(src, ls, i + 1, g, seq![], n);
                assert(cs == txt_channels(src, ls, i + 1, g, seq![], n));
                assert forall|k: int| 0 <= k < cs.len() implies #[trigger] txt_channel_after(ls, cs[k], i) by {
                    assert(txt_channel_after(ls, cs[k], i + 1));
                    let m = choose|m: int| {
                        &&& i + 1 <= m < ls.len()
                        &&& txt_group_name(clean_live_text(#[trigger] ls[m])) is None
                        &&& cs[k].group == txt_group_before(ls, m)
                    };
                    assert(txt_group_name(clean_live_text(ls[m])) is None);
                }
            },
            None => {
                let cand = if pending.len() == 0 { line } else { pending + " "@ + line };
                assert(txt_group_before(ls, i + 1) == group);
                let (np, nn) = match split_txt_channel_line(cand) {
                    Some(p) => match resolve_live_url(src.url, p.1) {
                        Some(u) => (seq![], n + 1),
                        None => (seq![], n),
                    },
                    None => (cand, n),
                };
                lemma_txt_channels_grouped(src, ls, i + 1, group, np, nn);
                let rest = txt_channels(src, ls, i + 1, group, np, nn);
                assert forall|k: int| 0 <= k < cs.len() implies #[trigger] txt_channel_after(ls, cs[k], i) by {
                    let off: int = if cs.len() > rest.len() { 1 } else { 0 };
                    if k < off {
                        assert(txt_group_name(clean_live_text(ls[i])) is None);
                    } else {
                        assert(cs[k] == rest[k - off]);
                        assert(txt_channel_after(ls, rest[k - off], i + 1));
                        let m = choose|m: int| {
                            &&& i + 1 <= m < ls.len()
                            &&& txt_group_name(clean_live_text(#[trigger] ls[m])) is None
                            &&& rest[k - off].group == txt_group_before(ls, m)
                        };
                        assert(txt_group_name(clean_live_text(ls[m])) is None);
                    }
                }
            },
        }
    }
}

/// Every channel of a TXT list is in the group that the last `name,#genre#`
/// line before its own line names, or in the default group where no such
/// line comes before it.
pub proof fn law_txt_channels_grouped(src: LiveSourceV, content: Seq<char>)
    requires
        !is_m3u_content(content),
    ensures
        forall|k: int| 0 <= k < parsed_live_playlist(src, content).channels.len()
            ==> #[trigger] txt_channel_after(live_lines(content), parsed_live_playlist(src, content).channels[k], 0),
{
    lemma_txt_channels_grouped(src, live_lines(content), 0, ungrouped(), seq![], 0);
}

pub open spec fn parse_txt(src: LiveSourceV, content: Seq<char>) -> LivePlaylistV {
    LivePlaylistV {
        epg_url: nonblank(src.epg),
        channels: txt_channels(src, live_lines(content), 0, ungrouped(), seq![], 0),
    }
}

fn parse_txt_vec(source: &LiveSource, content: &Vec<char>) -> (r: LivePlaylist)
    ensures
        r@ == parse_txt(source@, content@),
        channels_have_urls(r.channels@),
{
    let ls = live_lines_vec(content);
    let ghost L = views(ls@);
    let ghost src = source@;
    let mut channels: Vec<LiveChannel> = Vec::new();
    let mut group = chars_of("未分组");
    let mut pending: Vec<char> = Vec::new();
    let space = chars_of(" ");
    let mut i: usize = 0;
    assert(channel_views(channels@) + txt_channels(src, L, 0, ungrouped(), seq![], 0)
        =~= txt_channels(src, L, 0, ungrouped(), seq![], 0));
    while i < ls.len()
        invariant
            i <= ls.len(),
            L == views(ls@),
            src == source@,
            space@ == " "@,
            channel_views(channels@) + txt_channels(src, L, i as int, group@, pending@, channels.len() as nat)
                == txt_channels(src, L, 0, ungrouped(), seq![], 0),
            channels_have_urls(channels@),
        decreases ls.len() - i,
    {
        let ghost before = channel_views(channels@);
        assert(L[i as int] == ls@[i as int]@);
        let line = clean_live_text_vec(&ls[i]);
        match txt_group_name_vec(&line) {
            Some(g) => {
                group = g;
                pending = Vec::new();
                i += 1;
                continue;
            },
            None => {},
        }
        let candidate = if pending.len() == 0 {
            line
        } else {
            let ps = concat_vec(&pending, &space);
            concat_vec(&ps, &line)
        };
        match split_txt_channel_line_vec(&candidate) {
            None => {
                pending = candidate;
            },
            Some((name, value)) => {
                match resolve_live_url_vec(&source.url, &value) {
                    None => {
                        pending = Vec::new();
                    },
                    Some(u) => {
                        let ch = LiveChannel {
                            id: channel_id_string(&source.key, channels.len()),
                            source: copy_string(&source.key),
                            source_name: copy_string(&source.name),
                            tvg_id: string_of(&name),
                            name: string_of(&name),
                            logo: String::new(),
                            group: string_of(&group),
                            url: string_of(&u),
                        };
                        assert(ch@ == txt_channel(src, name@, group@, u@, channels.len() as nat));
                        proof {
                            assert(channel_views(channels@.push(ch)) =~= before.push(ch@));
                            assert(before.push(ch@) + txt_channels(src, L, i + 1, group@, seq![], (channels.len() + 1) as nat)
                                =~= before + (seq![ch@] + txt_channels(src, L, i + 1, group@, seq![], (channels.len() + 1) as nat)));
                            assert forall|k: int| 0 <= k < channels@.push(ch).len() implies (#[trigger] channels@.push(ch)[k]).url@.len() > 0 by {
                                if k < channels@.len() {
                                    assert(channels@.push(ch)[k] == channels@[k]);
                                }
                            }
                        }
                        channels.push(ch);
                        pending = Vec::new();
                    },
                }
            },
        }
        i += 1;
    }
    proof {
        assert(channel_views(channels@) + Seq::<LiveChannelV>::empty() =~= channel_views(channels@));
    }
    LivePlaylist { epg_url: nonblank_opt(&source.epg), channels }
}

// ---------------------------------------------------------------- both formats

pub open spec fn is_m3u_content(content: Seq<char>) -> bool {
    let normalized = trim(strip_bom(content));
    contains(normalized, "#EXTM3U"@) || contains(normalized, "#EXTINF"@)
}

/// What `parse_live_channels` gives: an M3U playlist when the text holds an
/// `#EXTM3U` or `#EXTINF` tag, else a TXT channel list.
pub open spec fn parsed_live_playlist(src: LiveSourceV, content: Seq<char>) -> LivePlaylistV {
    if is_m3u_content(content) {
        parse_m3u(src, content)
    } else {
        parse_txt(src, content)
    }
}

/// The `k`-th channel of a list from `src`: numbered `key-k`, carrying its
/// source's key and name, and named.
pub open spec fn channel_of_source(src: LiveSourceV, c: LiveChannelV, k: nat) -> bool {
    c.id == channel_id(src.key, k) && c.source == src.key && c.source_name == src.name && c.name.len() > 0
}

pub open spec fn channels_numbered(src: LiveSourceV, cs: Seq<LiveChannelV>, n: nat) -> bool {
    forall|k: int| 0 <= k < cs.len() ==> channel_of_source(src, #[trigger] cs[k], (n + k) as nat)
}

proof fn lemma_cons_numbered(src: LiveSourceV, c: LiveChannelV, rest: Seq<LiveChannelV>, n: nat)
    requires
        channel_of_source(src, c, n),
        channels_numbered(src, rest, n + 1),
    ensures
        channels_numbered(src, seq![c] + rest, n),
{
    let s = seq![c] + rest;
    assert forall|k: int| 0 <= k < s.len() implies channel_of_source(src, #[trigger] s[k], (n + k) as nat) by {
        if k > 0 {
            assert(s[k] == rest[k - 1]);
            assert((n + 1 + (k - 1)) as nat == (n + k) as nat);
        }
    }
}

proof fn lemma_m3u_numbered(src: LiveSourceV, ls: Seq<Seq<char>>, index: int, pending: Option<Seq<char>>, n: nat)
    ensures
        channels_numbered(src, m3u_channels(src, ls, index, pending, n), n),
    decreases ls.len() + 1 - index,
{
    if 0 <= index < ls.len() {
        let line = ls[index];
        if "#EXTGRP:"@.is_prefix_of(line) {
            let g = clean_live_text(line.skip("#EXTGRP:"@.len() as int));
            lemma_m3u_numbered(src, ls, index + 1, if g.len() > 0 { Some(g) } else { pending }, n);
        } else if !"#EXTINF:"@.is_prefix_of(line) {
            lemma_m3u_numbered(src, ls, index + 1, pending, n);
        } else {
            let name = m3u_name(line);
            if name.len() == 0 {
                lemma_m3u_numbered(src, ls, index + 1, pending, n);
            } else {
                let scan = m3u_url_scan(src.url, ls, index + 1);
                lemma_scan_bounds(src.url, ls, index + 1);
                match scan.0 {
                    Some(u) => {
                        let np = if attr_value(line, "group-title"@) is Some { pending } else { None };
                        lemma_m3u_numbered(src, ls, scan.1 + 1, np, n + 1);
                        lemma_cons_numbered(src, m3u_channel(src, line, name, u, pending, n), m3u_channels(src, ls, scan.1 + 1, np, n + 1), n);
                    },
                    None => {
                        lemma_m3u_numbered(src, ls, if scan.1 > index + 1 { scan.1 } else { index + 1 }, pending, n);
                    },
                }
            }
        }
    }
}

proof fn lemma_txt_numbered(src: LiveSourceV, ls: Seq<Seq<char>>, i: int, group: Seq<char>, pending: Seq<char>, n: nat)
    ensures
        channels_numbered(src, txt_channels(src, ls, i, group, pending, n), n),
    decreases ls.len() - i,
{
    if 0 <= i < ls.len() {
        let line = clean_live_text(ls[i]);
        match txt_group_name(line) {
            Some(g) => lemma_txt_numbered(src, ls, i + 1, g, seq![], n),
            None => {
                let cand = if pending.len() == 0 { line } else { pending + " "@ + line };
                match split_txt_channel_line(cand) {
                    None => lemma_txt_numbered(src, ls, i + 1, group, cand, n),
                    Some(p) => match resolve_live_url(src.url, p.1) {
                        None => lemma_txt_numbered(src, ls, i + 1, group, seq![], n),
                        Some(u) => {
                            lemma_txt_numbered(src, ls, i + 1, group, seq![], n + 1);
                            lemma_cons_numbered(src, txt_channel(src, p.0, group, u, n), txt_channels(src, ls, i + 1, group, seq![], n + 1), n);
                        },
                    },
                }
            },
        }
    }
}

/// Whether channel `c` comes from the `#EXTINF:` line `i` of the prepared
/// M3U lines `ls` and the address line `j` after it: only tags other than
/// `#EXTINF:` stand between them; its address is line `j` resolved against
/// the source's URL; its name is the text after the last comma of line `i`,
/// cleaned, or where that is empty the line's `tvg-name`; its guide id is
/// the line's `tvg-id`, else its name; and where the line has a
/// `group-title`, that is its group unless it is blank.
pub open spec fn m3u_channel_from(src: LiveSourceV, ls: Seq<Seq<char>>, c: LiveChannelV, i: int, j: int) -> bool {
    let line = ls[i];
    let title = match rfind(line, ',') {
        Some(p) => clean_live_text(line.subrange(p + 1, line.len() as int)),
        None => seq![],
    };
    &&& 0 <= i < j < ls.len()
    &&& "#EXTINF:"@.is_prefix_of(line)
    &&& !seq!['#'].is_prefix_of(ls[j])
    &&& forall|m: int| i < m < j ==> seq!['#'].is_prefix_of(#[trigger] ls[m]) && !"#EXTINF:"@.is_prefix_of(ls[m])
    &&& resolve_live_url(src.url, ls[j]) == Some(c.url)
    &&& c.name == if title.len() > 0 {
        title
    } else {
        match attr_value(line, "tvg-name"@) {
            Some(t) => t,
            None => seq![],
        }
    }
    &&& c.tvg_id == match attr_value(line, "tvg-id"@) {
        Some(t) => t,
        None => c.name,
    }
    &&& (attr_value(line, "group-title"@) matches Some(g) ==> c.group == if trim(g).len() > 0 {
        g
    } else {
        "未分组"@
    })
}

proof fn lemma_url_scan_found(base: Seq<char>, ls: Seq<Seq<char>>, j: int, i: int)
    requires
        0 <= i < j <= ls.len(),
        forall|m: int| i < m < j ==> seq!['#'].is_prefix_of(#[trigger] ls[m]) && !"#EXTINF:"@.is_prefix_of(ls[m]),
    ensures
        m3u_url_scan(base, ls, j).0 matches Some(u) ==> {
            let k = m3u_url_scan(base, ls, j).1;
            &&& j <= k < ls.len()
            &&& !seq!['#'].is_prefix_of(ls[k])
            &&& forall|m: int| i < m < k ==> seq!['#'].is_prefix_of(#[trigger] ls[m]) && !"#EXTINF:"@.is_prefix_of(ls[m])
            &&& resolve_live_url(base, ls[k]) == Some(u)
        },
    decreases ls.len() - j,
{
    if j < ls.len() && !"#EXTINF:"@.is_prefix_of(ls[j]) && seq!['#'].is_prefix_of(ls[j]) {
        lemma_url_scan_found(base, ls, j + 1, i);
    }
}

/// Whether channel `c` comes from an `#EXTINF:` line at or after `index`.
pub open spec fn m3u_channel_after(src: LiveSourceV, ls: Seq<Seq<char>>, c: LiveChannelV, index: int) -> bool {
    exists|i: int, j: int| index <= i && #[trigger] m3u_channel_from(src, ls, c, i, j)
}

/// Whether every channel of `cs` comes from an `#EXTINF:` line at or after `index`.
pub open spec fn m3u_channels_from(src: LiveSourceV, ls: Seq<Seq<char>>, cs: Seq<LiveChannelV>, index: int) -> bool {
    forall|k: int| 0 <= k < cs.len() ==> #[trigger] m3u_channel_after(src, ls, cs[k], index)
}

proof fn lemma_channels_from_earlier(src: LiveSourceV, ls: Seq<Seq<char>>, cs: Seq<LiveChannelV>, index: int, later: int)
    requires
        index <= later,
        m3u_channels_from(src, ls, cs, later),
    ensures
        m3u_channels_from(src, ls, cs, index),
{
    assert forall|k: int| 0 <= k < cs.len() implies #[trigger] m3u_channel_after(src, ls, cs[k], index) by {
        assert(m3u_channel_after(src, ls, cs[k], later));
        let (i, j) = choose|i: int, j: int| later <= i && #[trigger] m3u_channel_from(src, ls, cs[k], i, j);
        assert(m3u_channel_from(src, ls, cs[k], i, j));
    }
}

proof fn lemma_m3u_channels_from(src: LiveSourceV, ls: Seq<Seq<char>>, index: int, pending: Option<Seq<char>>, n: nat)
    requires
        0 <= index,
    ensures
        m3u_channels_from(src, ls, m3u_channels(src, ls, index, pending, n), index),
    decreases ls.len() + 1 - index,
{
    let cs = m3u_channels(src, ls, index, pending, n);
    if index < ls.len() {
        let line = ls[index];
        if "#EXTGRP:"@.is_prefix_of(line) {
            let g = clean_live_text(line.skip("#EXTGRP:"@.len() as int));
            let p = if g.len() > 0 { Some(g) } else { pending };
            lemma_m3u_channels_from(src, ls, index + 1, p, n);
            lemma_channels_from_earlier(src, ls, cs, index, index + 1);
        } else if !"#EXTINF:"@.is_prefix_of(line) {
            lemma_m3u_channels_from(src, ls, index + 1, pending, n);
            lemma_channels_from_earlier(src, ls, cs, index, index + 1);
        } else {
            let name = m3u_name(line);
            if name.len() == 0 {
                lemma_m3u_channels_from(src, ls, index + 1, pending, n);
                lemma_channels_from_earlier(src, ls, cs, index, index + 1);
            } else {
                let scan = m3u_url_scan(src.url, ls, index + 1);
                lemma_scan_bounds(src.url, ls, index + 1);
                lemma_url_scan_found(src.url, ls, index + 1, index);
                match scan.0 {
                    Some(u) => {
                        let np = if attr_value(line, "group-title"@) is Some { pending } else { None };
                        let rest = m3u_channels(src, ls, scan.1 + 1, np, n + 1);
                        lemma_m3u_channels_from(src, ls, scan.1 + 1, np, n + 1);
                        let c = m3u_channel(src, line, name, u, pending, n);
                        assert(cs == seq![c] + rest);
                        assert(m3u_channel_from(src, ls, c, index, scan.1));
                        assert forall|k: int| 0 <= k < cs.len() implies #[trigger] m3u_channel_after(src, ls, cs[k], index) by {
                            if k == 0 {
                                assert(m3u_channel_from(src, ls, cs[k], index, scan.1));
                            } else {
                                assert(cs[k] == rest[k - 1]);
                                assert(m3u_channel_after(src, ls, rest[k - 1], scan.1 + 1));
                                let (i, j) = choose|i: int, j: int| scan.1 + 1 <= i && #[trigger] m3u_channel_from(src, ls, rest[k - 1], i, j);
                                assert(m3u_channel_from(src, ls, cs[k], i, j));
                            }
                        }
                    },
                    None => {
                        let next = if scan.1 > index + 1 { scan.1 } else { index + 1 };
                        lemma_m3u_channels_from(src, ls, next, pending, n);
                        lemma_channels_from_earlier(src, ls, cs, index, next);
                    },
                }
            }
        }
    }
}

proof fn lemma_url_scan_reaches(base: Seq<char>, ls: Seq<Seq<char>>, start: int, j: int)
    requires
        0 <= start <= j < ls.len(),
        !seq!['#'].is_prefix_of(ls[j]),
        forall|m: int| start <= m < j ==> seq!['#'].is_prefix_of(#[trigger] ls[m]) && !"#EXTINF:"@.is_prefix_of(ls[m]),
    ensures
        m3u_url_scan(base, ls, start) == (resolve_live_url(base, ls[j]), j),
    decreases j - start,
{
    if start < j {
        assert(seq!['#'].is_prefix_of(ls[start]) && !"#EXTINF:"@.is_prefix_of(ls[start]));
        lemma_url_scan_reaches(base, ls, start + 1, j);
    } else {
        reveal_strlit("#EXTINF:");
        if "#EXTINF:"@.is_prefix_of(ls[j]) {
            assert(ls[j].subrange(0, 8)[0] == ls[j][0]);
            assert(ls[j].subrange(0, 1) =~= seq!['#']);
        }
    }
}

proof fn lemma_url_scan_stops_before(base: Seq<char>, ls: Seq<Seq<char>>, start: int, i: int)
    requires
        0 <= start <= i < ls.len(),
        "#EXTINF:"@.is_prefix_of(ls[i]),
    ensures
        m3u_url_scan(base, ls, start).1 <= i,
        m3u_url_scan(base, ls, start).0 is Some ==> m3u_url_scan(base, ls, start).1 < i,
    decreases i - start,
{
    if start < i && !"#EXTINF:"@.is_prefix_of(ls[start]) && seq!['#'].is_prefix_of(ls[start]) {
        lemma_url_scan_stops_before(base, ls, start + 1, i);
    }
}

proof fn lemma_m3u_channels_reach(
    src: LiveSourceV,
    ls: Seq<Seq<char>>,
    index: int,
    pending: Option<Seq<char>>,
    n: nat,
    i: int,
    j: int,
)
    requires
        0 <= index <= i < j < ls.len(),
        "#EXTINF:"@.is_prefix_of(ls[i]),
        m3u_name(ls[i]).len() > 0,
        !seq!['#'].is_prefix_of(ls[j]),
        forall|m: int| i < m < j ==> seq!['#'].is_prefix_of(#[trigger] ls[m]) && !"#EXTINF:"@.is_prefix_of(ls[m]),
        resolve_live_url(src.url, ls[j]) is Some,
    ensures
        exists|k: int| 0 <= k < m3u_channels(src, ls, index, pending, n).len()
            && #[trigger] m3u_channel_from(src, ls, m3u_channels(src, ls, index, pending, n)[k], i, j),
    decreases i - index,
{
    let cs = m3u_channels(src, ls, index, pending, n);
    let line = ls[index];
    reveal_strlit("#EXTINF:");
    reveal_strlit("#EXTGRP:");
    if index == i {
        if "#EXTGRP:"@.is_prefix_of(line) {
            assert(line.subrange(0, 8)[4] == line[4]);
            assert(ls[i].subrange(0, 8)[4] == ls[i][4]);
        }
        let scan = m3u_url_scan(src.url, ls, i + 1);
        lemma_url_scan_reaches(src.url, ls, i + 1, j);
        lemma_url_scan_found(src.url, ls, i + 1, i);
        let u = scan.0->0;
        let np = if attr_value(line, "group-title"@) is Some { pending } else { None };
        let rest = m3u_channels(src, ls, scan.1 + 1, np, n + 1);
        let c = m3u_channel(src, line, m3u_name(line), u, pending, n);
        assert(cs == seq![c] + rest);
        assert(cs[0] == c);
        assert(m3u_channel_from(src, ls, cs[0], i, j));
    } else {
        if "#EXTGRP:"@.is_prefix_of(line) {
            let g = clean_live_text(line.skip("#EXTGRP:"@.len() as int));
            let p = if g.len() > 0 { Some(g) } else { pending };
            lemma_m3u_channels_reach(src, ls, index + 1, p, n, i, j);
        } else if !"#EXTINF:"@.is_prefix_of(line) {
            lemma_m3u_channels_reach(src, ls, index + 1, pending, n, i, j);
        } else if m3u_name(line).len() == 0 {
            lemma_m3u_channels_reach(src, ls, index + 1, pending, n, i, j);
        } else {
            let scan = m3u_url_scan(src.url, ls, index + 1);
            lemma_scan_bounds(src.url, ls, index + 1);
            lemma_url_scan_stops_before(src.url, ls, index + 1, i);
            match scan.0 {
                Some(u) => {
                    let np = if attr_value(line, "group-title"@) is Some { pending } else { None };
                    let rest = m3u_channels(src, ls, scan.1 + 1, np, n + 1);
                    lemma_m3u_channels_reach(src, ls, scan.1 + 1, np, n + 1, i, j);
                    let c = m3u_channel(src, line, m3u_name(line), u, pending, n);
                    assert(cs == seq![c] + rest);
                    let k = choose|k: int| 0 <= k < rest.len() && #[trigger] m3u_channel_from(src, ls, rest[k], i, j);
                    assert(cs[k + 1] == rest[k]);
                    assert(m3u_channel_from(src, ls, cs[k + 1], i, j));
                },
                None => {
                    let next = if scan.1 > index + 1 { scan.1 } else { index + 1 };
                    lemma_m3u_channels_reach(src, ls, next, pending, n, i, j);
                },
            }
        }
    }
}

/// Every `#EXTINF:` line of an M3U list that names its channel (by a title
/// after its last comma or a `tvg-name`), followed by an address line that
/// resolves against the source's URL with only other tags between them,
/// gives a channel made from those two lines.
pub proof fn law_m3u_lines_give_channels(src: LiveSourceV, content: Seq<char>, i: int, j: int)
    requires
        is_m3u_content(content),
        0 <= i < j < live_lines(content).len(),
        "#EXTINF:"@.is_prefix_of(live_lines(content)[i]),
        ({
            let line = live_lines(content)[i];
            (match rfind(line, ',') {
                Some(p) => clean_live_text(line.subrange(p + 1, line.len() as int)),
                None => seq![],
            }).len() > 0 || (attr_value(line, "tvg-name"@) matches Some(t) && t.len() > 0)
        }),
        !seq!['#'].is_prefix_of(live_lines(content)[j]),
        forall|m: int| i < m < j ==> seq!['#'].is_prefix_of(#[trigger] live_lines(content)[m])
            && !"#EXTINF:"@.is_prefix_of(live_lines(content)[m]),
        resolve_live_url(src.url, live_lines(content)[j]) is Some,
    ensures
        exists|k: int| 0 <= k < parsed_live_playlist(src, content).channels.len()
            && #[trigger] m3u_channel_from(src, live_lines(content), parsed_live_playlist(src, content).channels[k], i, j),
{
    let ls = live_lines(content);
    lemma_m3u_channels_reach(src, ls, 0, None, 0, i, j);
    assert(parsed_live_playlist(src, content).channels == m3u_channels(src, ls, 0, None, 0));
}

/// Every channel of an M3U list comes from one of its `#EXTINF:` lines and
/// the address line after it: its address is that line resolved against the
/// source's URL, its name the title after the line's last comma or else its
/// `tvg-name`, its guide id the `tvg-id` or else its name, and its group the
/// line's `group-title` where that is present and not blank.
pub proof fn law_m3u_channels_from_lines(src: LiveSourceV, content: Seq<char>)
    requires
        is_m3u_content(content),
    ensures
        forall|k: int| 0 <= k < parsed_live_playlist(src, content).channels.len()
            ==> #[trigger] m3u_channel_after(src, live_lines(content), parsed_live_playlist(src, content).channels[k], 0),
{
    let ls = live_lines(content);
    lemma_m3u_channels_from(src, ls, 0, None, 0);
    assert(parsed_live_playlist(src, content).channels == m3u_channels(src, ls, 0, None, 0));
}

/// Every channel of a parsed list is named, carries its source's key and
/// name, and the `k`-th one is identified as `key-k`.
pub proof fn law_channels_numbered(src: LiveSourceV, content: Seq<char>)
    ensures
        channels_numbered(src, parsed_live_playlist(src, content).channels, 0),
{
    lemma_m3u_numbered(src, live_lines(content), 0, None, 0);
    lemma_txt_numbered(src, live_lines(content), 0, ungrouped(), seq![], 0);
}

/// Parses the channel list that a live source returned.
pub fn parse_live_channels(source: &LiveSource, content: &str) -> (r: LivePlaylist)
    ensures
        r@ == parsed_live_playlist(source@, content@),
        forall|k: int| 0 <= k < r.channels@.len() ==> (#[trigger] r.channels@[k]).url@.len() > 0,
{
    let c = chars_of(content);
    let b = strip_bom_vec(&c);
    let normalized = trim_vec(&b);
    let m3u_tag = chars_of("#EXTM3U");
    let inf_tag = chars_of("#EXTINF");
    if contains_exec(&normalized, &m3u_tag) || contains_exec(&normalized, &inf_tag) {
        parse_m3u_vec(source, &c)
    } else {
        parse_txt_vec(source, &c)
    }
}


// ---------------------------------------------------------------- configuration

pub struct LiveSourceEntryV {
    pub name: Seq<char>,
    pub url: Seq<char>,
    pub ua: Option<Seq<char>>,
    pub epg: Option<Seq<char>>,
    pub enabled: Option<bool>,
}

impl View for LiveSourceEntry {
    type V = LiveSourceEntryV;

    open spec fn view(&self) -> LiveSourceEntryV {
        LiveSourceEntryV {
            name: self.name@,
            url: self.url@,
            ua: opt_view(self.ua),
            epg: opt_view(self.epg),
            enabled: self.enabled,
        }
    }
}

impl SortName for LiveSource {
    open spec fn sort_name(&self) -> Seq<char> {
        self.name@
    }

    open spec fn sort_key(&self) -> Seq<char> {
        self.key@
    }
}

impl Named for LiveSource {
    fn name_str(&self) -> (r: &str) {
        self.name.as_str()
    }
}

impl SortName for LiveSourceV {
    open spec fn sort_name(&self) -> Seq<char> {
        self.name
    }

    open spec fn sort_key(&self) -> Seq<char> {
        self.key
    }
}

pub open spec fn live_source_views(s: Seq<LiveSource>) -> Seq<LiveSourceV> {
    s.map_values(|x: LiveSource| x@)
}

/// The live source that a configuration entry describes.
pub open spec fn live_source_from_entry(key: Seq<char>, e: LiveSourceEntryV) -> LiveSourceV {
    LiveSourceV {
        key: key,
        name: e.name,
        url: e.url,
        ua: nonblank(e.ua),
        epg: nonblank(e.epg),
        enabled: match e.enabled {
            Some(b) => b,
            None => true,
        },
    }
}

pub open spec fn live_entry_sources(entries: Seq<(Seq<char>, LiveSourceEntryV)>) -> Seq<LiveSourceV> {
    entries.map_values(|p: (Seq<char>, LiveSourceEntryV)| live_source_from_entry(p.0, p.1))
}

/// The live sources of the configuration file, sorted by name (entries of
/// equal name keep their key order).
pub open spec fn loaded_live_sources(entries: Seq<(Seq<char>, LiveSourceEntryV)>) -> Seq<LiveSourceV> {
    sorted_by_name(live_entry_sources(entries))
}

pub fn live_source_from_entry_exec(key: &String, entry: &LiveSourceEntry) -> (r: LiveSource)
    ensures
        r@ == live_source_from_entry(key@, entry@),
{
    LiveSource {
        key: copy_string(key),
        name: copy_string(&entry.name),
        url: copy_string(&entry.url),
        ua: nonblank_opt(&entry.ua),
        epg: nonblank_opt(&entry.epg),
        enabled: match entry.enabled {
            Some(b) => b,
            None => true,
        },
    }
}

/// The live sources that the configuration file lists.
pub fn load_live_sources(file: LiveConfigFile) -> (r: Vec<LiveSource>)
    requires
        keys_increasing(entry_views(file.lives@)),
    ensures
        live_source_views(r@) == loaded_live_sources(entry_views(file.lives@)),
{
    let ghost es = entry_views(file.lives@);
    let mut list: Vec<LiveSource> = Vec::new();
    let mut i: usize = 0;
    while i < file.lives.len()
        invariant
            i <= file.lives.len(),
            es == entry_views(file.lives@),
            live_source_views(list@) == live_entry_sources(es).take(i as int),
        decreases file.lives.len() - i,
    {
        let (key, entry) = &file.lives[i];
        let s = live_source_from_entry_exec(key, entry);
        proof {
            assert(es[i as int] == (key@, entry@));
            assert(live_entry_sources(es)[i as int] == s@);
            assert(live_source_views(list@.push(s)) =~= live_source_views(list@).push(s@));
            assert(live_entry_sources(es).take(i + 1) =~= live_entry_sources(es).take(i as int).push(s@));
        }
        list.push(s);
        i += 1;
    }
    proof {
        assert(live_entry_sources(es).take(i as int) =~= live_entry_sources(es));
    }
    let sorted = stable_sort_by_name(list);
    proof {
        lemma_sort_map(list@, |x: LiveSource| x@);
    }
    sorted
}

/// The configuration entry that is written for a live source.
pub open spec fn live_entry_for(s: LiveSourceV) -> LiveSourceEntryV {
    LiveSourceEntryV { name: s.name, url: s.url, ua: nonblank(s.ua), epg: nonblank(s.epg), enabled: Some(s.enabled) }
}

/// The entries written for the live sources: keyed and ordered by key, a later
/// source replacing an earlier one with the same key.
pub open spec fn saved_live_entries(sources: Seq<LiveSourceV>) -> Seq<(Seq<char>, LiveSourceEntryV)> {
    map_from(sources.map_values(|s: LiveSourceV| (s.key, live_entry_for(s))))
}

/// The configuration file that saving the live sources writes.
pub fn live_config_file(sources: &Vec<LiveSource>) -> (r: LiveConfigFile)
    ensures
        entry_views(r.lives@) == saved_live_entries(live_source_views(sources@)),
        keys_increasing(entry_views(r.lives@)),
{
    let ghost pairs = live_source_views(sources@).map_values(|s: LiveSourceV| (s.key, live_entry_for(s)));
    let mut lives: Vec<(String, LiveSourceEntry)> = Vec::new();
    let mut i: usize = 0;
    while i < sources.len()
        invariant
            i <= sources.len(),
            pairs == live_source_views(sources@).map_values(|s: LiveSourceV| (s.key, live_entry_for(s))),
            entry_views(lives@) == map_from(pairs.take(i as int)),
        decreases sources.len() - i,
    {
        let s = &sources[i];
        let entry = LiveSourceEntry {
            name: copy_string(&s.name),
            url: copy_string(&s.url),
            ua: nonblank_opt(&s.ua),
            epg: nonblank_opt(&s.epg),
            enabled: Some(s.enabled),
        };
        proof {
            assert(pairs.take(i + 1).drop_last() =~= pairs.take(i as int));
            assert(pairs.take(i + 1).last() == (s@.key, live_entry_for(s@)));
        }
        map_insert_exec(&mut lives, copy_string(&s.key), entry);
        i += 1;
    }
    proof {
        assert(pairs.take(i as int) =~= pairs);
        lemma_map_from_shape(pairs);
    }
    LiveConfigFile { lives }
}


/// A live source as loading gives it: its user agent and guide address, when
/// it has them, are not blank.
pub open spec fn is_loaded_live_form(s: LiveSourceV) -> bool {
    s.ua == nonblank(s.ua) && s.epg == nonblank(s.epg)
}

/// Every live source that loading gives is in loaded form.
pub proof fn law_loaded_live_source_form(key: Seq<char>, e: LiveSourceEntryV)
    ensures
        is_loaded_live_form(live_source_from_entry(key, e)),
{
}

/// A live source in loaded form, saved and loaded again, comes back unchanged.
pub proof fn law_live_source_round_trip(s: LiveSourceV)
    requires
        is_loaded_live_form(s),
    ensures
        live_source_from_entry(s.key, live_entry_for(s)) == s,
{
}

/// Loading sorts the configured live sources by name and keeps every one of them.
pub proof fn law_loaded_live_sources_sorted(entries: Seq<(Seq<char>, LiveSourceEntryV)>)
    ensures
        names_sorted(loaded_live_sources(entries)),
        loaded_live_sources(entries).to_multiset() == live_entry_sources(entries).to_multiset(),
{
    lemma_sorted_by_name(live_entry_sources(entries));
}

/// Saving the live sources that a configuration file gave, and loading the
/// saved file, gives the same live sources in the same order.
pub proof fn law_saved_live_sources_load_back(entries: Seq<(Seq<char>, LiveSourceEntryV)>)
    requires
        keys_increasing(entries),
    ensures
        loaded_live_sources(saved_live_entries(loaded_live_sources(entries))) == loaded_live_sources(entries),
{
    broadcast use vstd::seq_lib::group_to_multiset_ensures;
    let m = live_entry_sources(entries);
    let l = sorted_by_name(m);
    lemma_sorted_by_name(m);
    let p = l.map_values(|s: LiveSourceV| (s.key, live_entry_for(s)));
    let q = entries.map_values(
        |x: (Seq<char>, LiveSourceEntryV)| (x.0, live_entry_for(live_source_from_entry(x.0, x.1))),
    );
    assert forall|i: int, j: int| 0 <= i < j < q.len() implies text_lt(#[trigger] q[i].0, #[trigger] q[j].0) by {
        assert(q[i].0 == entries[i].0);
        assert(q[j].0 == entries[j].0);
    }
    assert forall|x: (Seq<char>, LiveSourceEntryV)| p.contains(x) <==> q.contains(x) by {
        if p.contains(x) {
            let i = choose|i: int| 0 <= i < p.len() && p[i] == x;
            let s = l[i];
            assert(l.contains(s));
            assert(l.to_multiset().count(s) > 0);
            assert(m.to_multiset().count(s) > 0);
            assert(m.contains(s));
            let j = choose|j: int| 0 <= j < m.len() && m[j] == s;
            assert(q[j] == x);
        }
        if q.contains(x) {
            let j = choose|j: int| 0 <= j < q.len() && q[j] == x;
            let s = m[j];
            assert(m.contains(s));
            assert(m.to_multiset().count(s) > 0);
            assert(l.to_multiset().count(s) > 0);
            assert(l.contains(s));
            let i = choose|i: int| 0 <= i < l.len() && l[i] == s;
            assert(p[i] == x);
        }
    }
    lemma_map_from_exact(p, q);
    assert forall|i: int| 0 <= i < m.len() implies #[trigger] live_entry_sources(q)[i] == m[i] by {
        law_loaded_live_source_form(entries[i].0, entries[i].1);
        law_live_source_round_trip(m[i]);
    }
    assert(live_entry_sources(q) =~= m);
}


/// A live source as saving it and loading it back leave it: a blank user
/// agent or guide address dropped.
pub open spec fn live_saved_form(s: LiveSourceV) -> LiveSourceV {
    LiveSourceV { key: s.key, name: s.name, url: s.url, ua: nonblank(s.ua), epg: nonblank(s.epg), enabled: s.enabled }
}

proof fn lemma_saved_live_member_of(ss: Seq<LiveSourceV>, x: LiveSourceV)
    requires
        live_entry_sources(saved_live_entries(ss)).contains(x),
    ensures
        ss.map_values(|s: LiveSourceV| live_saved_form(s)).contains(x),
{
    let p = ss.map_values(|s: LiveSourceV| (s.key, live_entry_for(s)));
    let m = map_from(p);
    lemma_map_from_shape(p);
    let e = live_entry_sources(m);
    let f = ss.map_values(|s: LiveSourceV| live_saved_form(s));
    let i = choose|i: int| 0 <= i < e.len() && e[i] == x;
    assert(m.contains(m[i]));
    assert(p.contains(m[i]));
    let j = choose|j: int| 0 <= j < p.len() && p[j] == m[i];
    assert(f[j] == x);
}

proof fn lemma_saved_live_member_in(ss: Seq<LiveSourceV>, x: LiveSourceV)
    requires
        forall|i: int, j: int| 0 <= i < j < ss.len() ==> (#[trigger] ss[i]).key != (#[trigger] ss[j]).key,
        ss.map_values(|s: LiveSourceV| live_saved_form(s)).contains(x),
    ensures
        live_entry_sources(saved_live_entries(ss)).contains(x),
{
    let p = ss.map_values(|s: LiveSourceV| (s.key, live_entry_for(s)));
    let m = map_from(p);
    lemma_map_from_shape(p);
    let e = live_entry_sources(m);
    let f = ss.map_values(|s: LiveSourceV| live_saved_form(s));
    let j = choose|j: int| 0 <= j < f.len() && f[j] == x;
    assert(p.contains(p[j]));
    let y = choose|y: (Seq<char>, LiveSourceEntryV)| #[trigger] m.contains(y) && y.0 == p[j].0;
    assert(p.contains(y));
    let k = choose|k: int| 0 <= k < p.len() && p[k] == y;
    if k < j {
        assert(ss[k].key != ss[j].key);
    } else if j < k {
        assert(ss[j].key != ss[k].key);
    }
    let i = choose|i: int| 0 <= i < m.len() && m[i] == y;
    assert(e[i] == x);
}

proof fn lemma_saved_live_members(ss: Seq<LiveSourceV>)
    requires
        forall|i: int, j: int| 0 <= i < j < ss.len() ==> (#[trigger] ss[i]).key != (#[trigger] ss[j]).key,
    ensures
        forall|x: LiveSourceV| live_entry_sources(saved_live_entries(ss)).contains(x)
            <==> ss.map_values(|s: LiveSourceV| live_saved_form(s)).contains(x),
        forall|i: int, j: int| 0 <= i < j < live_entry_sources(saved_live_entries(ss)).len()
            ==> text_lt(#[trigger] live_entry_sources(saved_live_entries(ss))[i].key, #[trigger] live_entry_sources(saved_live_entries(ss))[j].key),
{
    let p = ss.map_values(|s: LiveSourceV| (s.key, live_entry_for(s)));
    let m = map_from(p);
    lemma_map_from_shape(p);
    let e = live_entry_sources(m);
    assert forall|i: int, j: int| 0 <= i < j < e.len() implies text_lt(#[trigger] e[i].key, #[trigger] e[j].key) by {
        assert(e[i].key == m[i].0 && e[j].key == m[j].0);
    }
    let f = ss.map_values(|s: LiveSourceV| live_saved_form(s));
    assert forall|x: LiveSourceV| e.contains(x) <==> f.contains(x) by {
        if e.contains(x) {
            lemma_saved_live_member_of(ss, x);
        }
        if f.contains(x) {
            lemma_saved_live_member_in(ss, x);
        }
    }
}

/// Saving any list of live sources whose keys differ and loading the saved
/// file gives back exactly those sources, blank user agents and guide
/// addresses dropped, ordered by name and then by key.
pub proof fn law_live_sources_save_load(ss: Seq<LiveSourceV>)
    requires
        forall|i: int, j: int| 0 <= i < j < ss.len() ==> (#[trigger] ss[i]).key != (#[trigger] ss[j]).key,
    ensures
        name_key_sorted(loaded_live_sources(saved_live_entries(ss))),
        forall|x: LiveSourceV| loaded_live_sources(saved_live_entries(ss)).contains(x)
            <==> ss.map_values(|s: LiveSourceV| live_saved_form(s)).contains(x),
        loaded_live_sources(saved_live_entries(ss)) == sorted_by_name_key(ss.map_values(|s: LiveSourceV| live_saved_form(s))),
{
    broadcast use vstd::seq_lib::group_to_multiset_ensures;
    lemma_saved_live_members(ss);
    let e = live_entry_sources(saved_live_entries(ss));
    lemma_sorted_name_key(e);
    lemma_sorted_by_name(e);
    let r = sorted_by_name(e);
    let f = ss.map_values(|s: LiveSourceV| live_saved_form(s));
    assert forall|x: LiveSourceV| r.contains(x) <==> f.contains(x) by {
        if r.contains(x) {
            assert(r.to_multiset().count(x) > 0);
            assert(e.to_multiset().count(x) > 0);
            assert(e.contains(x));
        }
        if f.contains(x) {
            assert(e.contains(x));
            assert(e.to_multiset().count(x) > 0);
            assert(r.to_multiset().count(x) > 0);
        }
    }
    let q = sorted_by_name_key(f);
    assert forall|i: int, j: int| 0 <= i < j < f.len() implies (#[trigger] f[i]).sort_key() != (#[trigger] f[j]).sort_key() by {
        assert(f[i].key == ss[i].key && f[j].key == ss[j].key);
    }
    lemma_sorted_by_name_key(f);
    assert forall|x: LiveSourceV| r.contains(x) <==> q.contains(x) by {
        if q.contains(x) {
            assert(q.to_multiset().count(x) > 0);
            assert(f.to_multiset().count(x) > 0);
        }
        if f.contains(x) {
            assert(f.to_multiset().count(x) > 0);
            assert(q.to_multiset().count(x) > 0);
        }
    }
    lemma_name_key_unique(r, q);
}

/// The text of a live list's bytes: UTF-8 when that decodes without errors, else GBK.
pub open spec fn decoded_text(bytes: Seq<u8>) -> Seq<char> {
    match decoded_with_label("utf-8"@, bytes) {
        Some((t, false)) => t,
        _ => match decoded_with_label("gbk"@, bytes) {
            Some((t, _)) => t,
            None => seq![],
        },
    }
}

pub fn decode_text(bytes: &[u8]) -> (r: String)
    ensures
        r@ == decoded_text(bytes@),
{
    match decode_with_label("utf-8", bytes) {
        Some((t, false)) => {
            return t;
        },
        _ => {},
    }
    match decode_with_label("gbk", bytes) {
        Some((t, _)) => t,
        None => String::new(),
    }
}

} // verus!
