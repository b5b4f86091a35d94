//! The local HLS proxy: removing advertisement segments from playlists and
//! rewriting playlist addresses so that they go through the proxy.
use vstd::prelude::*;
use crate::ads::{ad_keywords, ad_keywords_vec, contains_any, contains_any_exec, looks_like_short_ad_name, looks_like_short_ad_name_exec};
use crate::duration::{extinf_duration, extinf_duration_exec, median, median_exec};
use crate::bindings::{
    joined_url, parsed_url, url_host, url_host_of, url_join, url_parse,
    url_password, url_password_of, url_path, url_path_of, url_scheme, url_scheme_of, url_set_path, url_username,
    url_username_of, url_with_path,
};
use crate::live::{opt_vec_view, opt_view};
use crate::text::{
    chars_of, concat_vec, contains, contains_exec, ends_with_exec, eq_vec, find, find_exec, lemma_find_from, slice_vec, join, join_vec, lines, lines_vec, lower, lower_vec,
    starts_with_exec, string_of, trim, trim_vec, views, is_ws, lemma_lines_of_join, lemma_lines_shape, lemma_trim_nonempty,
};

verus! {

broadcast use vstd::string::group_string_axioms;

/// The first line at or after `start` that is neither blank nor a tag.
pub open spec fn next_media_line(ls: Seq<Seq<char>>, start: int) -> Option<int>
    decreases ls.len() - start,
{
    if start < 0 || start >= ls.len() {
        None
    } else if trim(ls[start]).len() == 0 || seq!['#'].is_prefix_of(trim(ls[start])) {
        next_media_line(ls, start + 1)
    } else {
        Some(start)
    }
}

pub proof fn lemma_next_media_line(ls: Seq<Seq<char>>, start: int)
    requires
        0 <= start,
    ensures
        next_media_line(ls, start) matches Some(j) ==> start <= j < ls.len() && trim(ls[j]).len() > 0
            && !seq!['#'].is_prefix_of(trim(ls[j])),
    decreases ls.len() - start,
{
    if start < ls.len() && (trim(ls[start]).len() == 0 || seq!['#'].is_prefix_of(trim(ls[start]))) {
        lemma_next_media_line(ls, start + 1);
    }
}

fn next_media_line_exec(ls: &Vec<Vec<char>>, start: usize) -> (r: Option<usize>)
    ensures
        match r {
            Some(j) => next_media_line(views(ls@), start as int) == Some(j as int),
            None => next_media_line(views(ls@), start as int) is None,
        },
{
    let mut hash: Vec<char> = Vec::new();
    hash.push('#');
    assert(hash@ =~= seq!['#']);
    let mut j = start;
    while j < ls.len()
        invariant
            start <= j,
            hash@ == seq!['#'],
            next_media_line(views(ls@), start as int) == next_media_line(views(ls@), j as int),
        decreases ls.len() - j,
    {
        let t = trim_vec(&ls[j]);
        assert(views(ls@)[j as int] == ls@[j as int]@);
        if !(t.len() == 0 || starts_with_exec(&t, &hash)) {
            return Some(j);
        }
        j += 1;
    }
    None
}

/// Whether a segment of the given duration looks like an advertisement: after a
/// discontinuity, at most six seconds long, and (when the playlist has a median
/// duration) the median is at least seven seconds and the segment at most three
/// quarters of it.  Durations are duration codes (twice the nanoseconds, plus
/// one for a fraction of a nanosecond), so six seconds is the code 12 * 10^9
/// and seven seconds is 14 * 10^9; the three quarters are compared on codes,
/// which is exact unless one of the two durations has a fraction of a
/// nanosecond.
pub open spec fn looks_like_ad_by_duration(d: Option<u64>, normal: Option<u64>, after_marker: bool) -> bool {
    after_marker && match d {
        None => false,
        Some(d) => match normal {
            None => 0 < d && d <= 12_000_000_000,
            Some(n) => 0 < d && d <= 12_000_000_000 && n >= 14_000_000_000 && 4 * d <= 3 * n,
        },
    }
}

/// The kept lines cut back to the start of the current discontinuity block.
pub open spec fn cut(out: Seq<Seq<char>>, block: nat) -> Seq<Seq<char>> {
    if block < out.len() {
        out.take(block as int)
    } else {
        out
    }
}

/// The positive durations of the playlist's `#EXTINF:` lines, in order.
pub open spec fn segment_durations(ls: Seq<Seq<char>>) -> Seq<u64>
    decreases ls.len(),
{
    if ls.len() == 0 {
        seq![]
    } else {
        match extinf_duration(ls.last()) {
            Some(d) => segment_durations(ls.drop_last()).push(d),
            None => segment_durations(ls.drop_last()),
        }
    }
}

/// Whether the `#EXTINF:` line at `index` introduces an advertisement segment,
/// and where its address line is.
pub open spec fn ad_segment(ls: Seq<Seq<char>>, normal: Option<u64>, index: int, seen: bool) -> Option<int> {
    let line = ls[index];
    if contains(line, "#EXTINF:"@) {
        match next_media_line(ls, index + 1) {
            Some(j) => if contains_any(lower(ls[j]), ad_keywords()) || looks_like_short_ad_name(ls[j])
                || looks_like_ad_by_duration(extinf_duration(line), normal, seen) {
                Some(j)
            } else {
                None
            },
            None => None,
        }
    } else {
        None
    }
}

/// The lines kept from line `index` on, given the lines kept so far, where the
/// current discontinuity block starts among them, and whether a discontinuity
/// was seen.
pub open spec fn filter_from(
    ls: Seq<Seq<char>>,
    normal: Option<u64>,
    index: int,
    block: nat,
    seen: bool,
    out: Seq<Seq<char>>,
) -> Seq<Seq<char>>
    decreases ls.len() - index,
{
    if index < 0 || index >= ls.len() {
        out
    } else {
        let line = ls[index];
        if contains(line, "#EXT-X-DISCONTINUITY"@) {
            filter_from(ls, normal, index + 1, out.len(), true, out)
        } else if contains_any(lower(line), ad_keywords()) {
            filter_from(ls, normal, index + 1, block, seen, cut(out, block))
        } else {
            match ad_segment(ls, normal, index, seen) {
                Some(j) => {
                    proof {
                        lemma_next_media_line(ls, index + 1);
                    }
                    filter_from(ls, normal, j + 1, block, seen, cut(out, block))
                },
                None => if !seq!['#'].is_prefix_of(trim(line)) && looks_like_short_ad_name(line) {
                    filter_from(ls, normal, index + 1, block, seen, cut(out, block))
                } else {
                    filter_from(ls, normal, index + 1, block, seen, out.push(line))
                },
            }
        }
    }
}

/// The playlist with advertisement lines removed: lines with an advertisement
/// word, `#EXTINF:` entries whose segment looks like an advertisement (by its
/// address, its name or its duration), bare segments named like `ad.ts`, and
/// every line kept since the last `#EXT-X-DISCONTINUITY` before any of them;
/// the discontinuity tags themselves are dropped.
pub open spec fn filtered_playlist(content: Seq<char>) -> Seq<char> {
    if trim(content).len() == 0 {
        seq![]
    } else {
        join(kept_lines(content), seq!['\n'])
    }
}

/// The lines of a playlist that filtering keeps, in order.
pub open spec fn kept_lines(content: Seq<char>) -> Seq<Seq<char>> {
    let ls = lines(content);
    filter_from(ls, median(segment_durations(ls)), 0, 0, false, seq![])
}

/// A line that is no discontinuity tag, holds no advertisement word, and is
/// no bare segment named like an advertisement.
pub open spec fn clean_line(l: Seq<char>) -> bool {
    &&& !contains(l, "#EXT-X-DISCONTINUITY"@)
    &&& !contains_any(lower(l), ad_keywords())
    &&& !(!seq!['#'].is_prefix_of(trim(l)) && looks_like_short_ad_name(l))
}

/// Every line of `out` is a clean line of `ls`.
pub open spec fn clean_lines_of(ls: Seq<Seq<char>>, out: Seq<Seq<char>>) -> bool {
    forall|k: int| 0 <= k < out.len() ==> clean_line(#[trigger] out[k]) && ls.contains(out[k])
}

proof fn lemma_filter_from_clean(
    ls: Seq<Seq<char>>,
    normal: Option<u64>,
    index: int,
    block: nat,
    seen: bool,
    out: Seq<Seq<char>>,
)
    requires
        clean_lines_of(ls, out),
    ensures
        clean_lines_of(ls, filter_from(ls, normal, index, block, seen, out)),
    decreases ls.len() - index,
{
    if 0 <= index < ls.len() {
        let line = ls[index];
        let c = cut(out, block);
        assert forall|k: int| 0 <= k < c.len() implies clean_line(#[trigger] c[k]) && ls.contains(c[k]) by {
            assert(c[k] == out[k]);
        }
        if contains(line, "#EXT-X-DISCONTINUITY"@) {
            lemma_filter_from_clean(ls, normal, index + 1, out.len(), true, out);
            assert(filter_from(ls, normal, index, block, seen, out) == filter_from(ls, normal, index + 1, out.len(), true, out));
        } else if contains_any(lower(line), ad_keywords()) {
            lemma_filter_from_clean(ls, normal, index + 1, block, seen, c);
            assert(filter_from(ls, normal, index, block, seen, out) == filter_from(ls, normal, index + 1, block, seen, c));
        } else {
            match ad_segment(ls, normal, index, seen) {
                Some(j) => {
                    lemma_next_media_line(ls, index + 1);
                    lemma_filter_from_clean(ls, normal, j + 1, block, seen, c);
                    assert(filter_from(ls, normal, index, block, seen, out) == filter_from(ls, normal, j + 1, block, seen, c));
                },
                None => if !seq!['#'].is_prefix_of(trim(line)) && looks_like_short_ad_name(line) {
                    lemma_filter_from_clean(ls, normal, index + 1, block, seen, c);
                } else {
                    let o = out.push(line);
                    assert forall|k: int| 0 <= k < o.len() implies clean_line(#[trigger] o[k]) && ls.contains(o[k]) by {
                        if k == out.len() {
                            assert(ls[index] == o[k]);
                        } else {
                            assert(o[k] == out[k]);
                        }
                    }
                    lemma_filter_from_clean(ls, normal, index + 1, block, seen, o);
                    assert(filter_from(ls, normal, index, block, seen, out) == filter_from(ls, normal, index + 1, block, seen, o));
                },
            }
        }
    }
}

proof fn lemma_filter_from_all_clean(ls: Seq<Seq<char>>, normal: Option<u64>, index: int, block: nat, out: Seq<Seq<char>>)
    requires
        0 <= index <= ls.len(),
        forall|k: int| 0 <= k < ls.len() ==> clean_line(#[trigger] ls[k]),
    ensures
        filter_from(ls, normal, index, block, false, out) == out + ls.skip(index),
    decreases ls.len() - index,
{
    if index < ls.len() {
        let line = ls[index];
        assert(clean_line(line));
        if contains(line, "#EXTINF:"@) {
            lemma_next_media_line(ls, index + 1);
            match next_media_line(ls, index + 1) {
                Some(j) => {
                    assert(clean_line(ls[j]));
                },
                None => {},
            }
        }
        assert(ad_segment(ls, normal, index, false) is None);
        lemma_filter_from_all_clean(ls, normal, index + 1, block, out.push(line));
        assert(out.push(line) + ls.skip(index + 1) =~= out + ls.skip(index));
    } else {
        assert(out + ls.skip(index) =~= out);
    }
}

/// The lines of `ls` that are no `#EXT-X-DISCONTINUITY` tag, in order.
pub open spec fn without_discontinuities(ls: Seq<Seq<char>>) -> Seq<Seq<char>>
    decreases ls.len(),
{
    if ls.len() == 0 {
        seq![]
    } else if contains(ls[0], "#EXT-X-DISCONTINUITY"@) {
        without_discontinuities(ls.skip(1))
    } else {
        seq![ls[0]] + without_discontinuities(ls.skip(1))
    }
}

/// A line with no advertisement word that, unless it is a tag, is not named
/// like an advertisement.
pub open spec fn ad_free_line(l: Seq<char>) -> bool {
    &&& !contains_any(lower(l), ad_keywords())
    &&& (seq!['#'].is_prefix_of(trim(l)) || !looks_like_short_ad_name(l))
}

/// Whether no segment of the playlist is short beside the normal duration:
/// the median is below seven seconds (the code 14 * 10^9), or every segment
/// is longer than six seconds (the code 12 * 10^9), or every segment is more
/// than three quarters of the median.
pub open spec fn no_duration_ads(ls: Seq<Seq<char>>, normal: Option<u64>) -> bool {
    ||| normal matches Some(n) && n < 14_000_000_000
    ||| forall|k: int| 0 <= k < ls.len() ==> (extinf_duration(#[trigger] ls[k]) matches Some(d) ==> d > 12_000_000_000)
    ||| normal matches Some(n) && forall|k: int| 0 <= k < ls.len() ==> (extinf_duration(#[trigger] ls[k]) matches Some(d) ==> 4 * d > 3 * n)
}

proof fn lemma_filter_from_no_duration_ads(
    ls: Seq<Seq<char>>,
    normal: Option<u64>,
    index: int,
    block: nat,
    seen: bool,
    out: Seq<Seq<char>>,
)
    requires
        0 <= index <= ls.len(),
        forall|k: int| 0 <= k < ls.len() ==> ad_free_line(#[trigger] ls[k]),
        no_duration_ads(ls, normal),
    ensures
        filter_from(ls, normal, index, block, seen, out) == out + without_discontinuities(ls.skip(index)),
    decreases ls.len() - index,
{
    let rest = ls.skip(index);
    if index < ls.len() {
        let line = ls[index];
        assert(ad_free_line(line));
        assert(rest[0] == line);
        assert(rest.skip(1) =~= ls.skip(index + 1));
        if contains(line, "#EXT-X-DISCONTINUITY"@) {
            lemma_filter_from_no_duration_ads(ls, normal, index + 1, out.len(), true, out);
        } else {
            if contains(line, "#EXTINF:"@) {
                lemma_next_media_line(ls, index + 1);
                match next_media_line(ls, index + 1) {
                    Some(j) => {
                        assert(ad_free_line(ls[j]));
                    },
                    None => {},
                }
            }
            assert(extinf_duration(ls[index]) == extinf_duration(line));
            assert(ad_segment(ls, normal, index, seen) is None);
            lemma_filter_from_no_duration_ads(ls, normal, index + 1, block, seen, out.push(line));
            assert(out.push(line) + without_discontinuities(ls.skip(index + 1)) =~= out + (seq![line]
                + without_discontinuities(ls.skip(index + 1))));
        }
    } else {
        assert(rest.len() == 0);
        assert(out + seq![] =~= out);
    }
}

/// No segment is removed for its duration when the median of the positive
/// segment durations is below seven seconds, or every segment is longer than
/// six seconds, or every segment is more than three quarters of the median:
/// then a playlist with no advertisement word and no address named like an
/// advertisement keeps every line but its discontinuity tags, in order,
/// however many discontinuities it has.
pub proof fn law_no_short_segments_kept(content: Seq<char>)
    requires
        forall|k: int| 0 <= k < lines(content).len() ==> ad_free_line(#[trigger] lines(content)[k]),
        no_duration_ads(lines(content), median(segment_durations(lines(content)))),
    ensures
        kept_lines(content) == without_discontinuities(lines(content)),
        trim(content).len() > 0 ==> filtered_playlist(content) == join(without_discontinuities(lines(content)), seq!['\n']),
{
    let ls = lines(content);
    lemma_filter_from_no_duration_ads(ls, median(segment_durations(ls)), 0, 0, false, seq![]);
    assert(ls.skip(0) =~= ls);
    assert(seq![] + without_discontinuities(ls) =~= without_discontinuities(ls));
}

/// Before any discontinuity nothing is removed for its duration: a playlist
/// without discontinuity tags, advertisement words and addresses named like
/// an advertisement keeps every line, in order, whatever its durations.
pub proof fn law_clean_playlist_kept(content: Seq<char>)
    requires
        forall|k: int| 0 <= k < lines(content).len() ==> clean_line(#[trigger] lines(content)[k]),
    ensures
        kept_lines(content) == lines(content),
{
    let ls = lines(content);
    lemma_filter_from_all_clean(ls, median(segment_durations(ls)), 0, 0, seq![]);
    assert(seq![] + ls.skip(0) =~= ls);
}

/// Filtering a playlist that was already filtered changes nothing, for a
/// playlist without carriage returns whose every line holds a character
/// other than white space.
pub proof fn law_filter_idempotent(content: Seq<char>)
    requires
        !content.contains('\r'),
        forall|k: int| 0 <= k < lines(content).len() ==> trim(#[trigger] lines(content)[k]).len() > 0,
    ensures
        filtered_playlist(filtered_playlist(content)) == filtered_playlist(content),
{
    if trim(content).len() == 0 {
        assert(trim(seq![]).len() == 0);
    } else {
        let ls = lines(content);
        let kept = kept_lines(content);
        law_kept_lines_clean(content);
        lemma_lines_shape(content);
        assert forall|k: int| 0 <= k < kept.len() implies (#[trigger] kept[k]).len() > 0 && !kept[k].contains('\n')
            && !kept[k].contains('\r') by {
            assert(ls.contains(kept[k]));
            let i = choose|i: int| 0 <= i < ls.len() && ls[i] == kept[k];
            assert(trim(ls[i]).len() > 0);
            lemma_trim_nonempty(ls[i]);
        }
        lemma_lines_of_join(kept);
        let c2 = join(kept, seq!['\n']);
        assert(filtered_playlist(content) == c2);
        if kept.len() == 0 {
            assert(trim(seq![]).len() == 0);
        } else {
            let a = kept[0];
            assert(ls.contains(a));
            let i = choose|i: int| 0 <= i < ls.len() && ls[i] == a;
            lemma_trim_nonempty(a);
            let t = choose|t: int| 0 <= t < a.len() && !is_ws(#[trigger] a[t]);
            assert(c2[t] == a[t]);
            lemma_trim_nonempty(c2);
            assert(lines(c2) == kept);
            assert forall|k: int| 0 <= k < kept.len() implies clean_line(#[trigger] kept[k]) by {}
            lemma_filter_from_all_clean(kept, median(segment_durations(kept)), 0, 0, seq![]);
            assert(seq![] + kept.skip(0) =~= kept);
            assert(kept_lines(c2) == kept);
        }
    }
}

/// Every line that filtering keeps is a line of the playlist, and none is a
/// discontinuity tag, holds an advertisement word, or is a bare segment named
/// like an advertisement.
pub proof fn law_kept_lines_clean(content: Seq<char>)
    ensures
        clean_lines_of(lines(content), kept_lines(content)),
{
    let ls = lines(content);
    lemma_filter_from_clean(ls, median(segment_durations(ls)), 0, 0, false, seq![]);
}

fn segment_durations_exec(ls: &Vec<Vec<char>>) -> (r: Vec<u64>)
    ensures
        r@ == segment_durations(views(ls@)),
{
    let mut r: Vec<u64> = Vec::new();
    let mut i: usize = 0;
    while i < ls.len()
        invariant
            i <= ls.len(),
            r@ == segment_durations(views(ls@).take(i as int)),
        decreases ls.len() - i,
    {
        proof {
            assert(views(ls@).take(i + 1).drop_last() =~= views(ls@).take(i as int));
            assert(views(ls@).take(i + 1).last() == ls@[i as int]@);
        }
        match extinf_duration_exec(&ls[i]) {
            Some(d) => r.push(d),
            None => {},
        }
        i += 1;
    }
    assert(views(ls@).take(ls.len() as int) =~= views(ls@));
    r
}

fn cut_exec(out: &mut Vec<Vec<char>>, block: usize)
    ensures
        views(final(out)@) == cut(views(old(out)@), block as nat),
{
    if block < out.len() {
        out.truncate(block);
        assert(views(out@) =~= views(old(out)@).take(block as int));
    }
}

/// Removes advertisement segments from an HLS playlist.
pub fn filter_ads_from_m3u8(content: &str) -> (r: String)
    ensures
        r@ == filtered_playlist(content@),
{
    let c = chars_of(content);
    let t = trim_vec(&c);
    if t.len() == 0 {
        return String::new();
    }
    let ls = lines_vec(&c);
    let ghost L = views(ls@);
    let durations = segment_durations_exec(&ls);
    let normal = median_exec(&durations);
    let keywords = ad_keywords_vec();
    let disc = chars_of("#EXT-X-DISCONTINUITY");
    let extinf = chars_of("#EXTINF:");
    let mut hash: Vec<char> = Vec::new();
    hash.push('#');
    assert(hash@ =~= seq!['#']);
    let mut filtered: Vec<Vec<char>> = Vec::new();
    let mut index: usize = 0;
    let mut block: usize = 0;
    let mut seen = false;
    assert(views(filtered@) =~= Seq::<Seq<char>>::empty());
    while index < ls.len()
        invariant
            index <= ls.len(),
            block <= usize::MAX,
            L == views(ls@),
            views(keywords@) == ad_keywords(),
            disc@ == "#EXT-X-DISCONTINUITY"@,
            extinf@ == "#EXTINF:"@,
            hash@ == seq!['#'],
            normal == median(segment_durations(L)),
            filter_from(L, normal, index as int, block as nat, seen, views(filtered@))
                == filter_from(L, normal, 0, 0, false, seq![]),
        decreases ls.len() - index,
    {
        let line = &ls[index];
        assert(L[index as int] == line@);
        let lowered = lower_vec(line);
        if contains_exec(line, &disc) {
            block = filtered.len();
            seen = true;
            index += 1;
            continue;
        }
        if contains_any_exec(&lowered, &keywords) {
            cut_exec(&mut filtered, block);
            index += 1;
            continue;
        }
        if contains_exec(line, &extinf) {
            proof {
                lemma_next_media_line(L, index + 1);
            }
            match next_media_line_exec(&ls, index + 1) {
                Some(j) => {
                    let media = &ls[j];
                    let media_lower = lower_vec(media);
                    let ad = contains_any_exec(&media_lower, &keywords) || looks_like_short_ad_name_exec(media)
                        || looks_like_ad_by_duration_exec(extinf_duration_exec(line), normal, seen);
                    assert(L[j as int] == media@);
                    if ad {
                        cut_exec(&mut filtered, block);
                        index = j + 1;
                        continue;
                    }
                },
                None => {},
            }
        }
        let tl = trim_vec(line);
        if !starts_with_exec(&tl, &hash) && looks_like_short_ad_name_exec(line) {
            cut_exec(&mut filtered, block);
            index += 1;
            continue;
        }
        let kept = line.clone();
        proof {
            assert(views(filtered@.push(kept)) =~= views(filtered@).push(line@));
        }
        filtered.push(kept);
        index += 1;
    }
    let mut nl: Vec<char> = Vec::new();
    nl.push('\n');
    assert(nl@ =~= seq!['\n']);
    string_of(&join_vec(&filtered, &nl))
}

fn looks_like_ad_by_duration_exec(d: Option<u64>, normal: Option<u64>, after_marker: bool) -> (r: bool)
    ensures
        r == looks_like_ad_by_duration(d, normal, after_marker),
{
    if !after_marker {
        return false;
    }
    match d {
        None => false,
        Some(d) => match normal {
            None => 0 < d && d <= 12_000_000_000,
            Some(n) => 0 < d && d <= 12_000_000_000 && n >= 14_000_000_000 && (4 * d as u128) <= 3 * (n as u128),
        },
    }
}


// ---------------------------------------------------------------- addresses

/// A byte that `application/x-www-form-urlencoded` serialization keeps.
pub open spec fn form_unreserved(b: u8) -> bool {
    b == 42 || b == 45 || b == 46 || (48 <= b && b <= 57) || (65 <= b && b <= 90) || b == 95 || (97
        <= b && b <= 122)
}

pub open spec fn hex_upper(n: u8) -> char {
    if n < 10 {
        ((n + 48) as u32) as char
    } else {
        ((n + 55) as u32) as char
    }
}

/// How `form_urlencoded::byte_serialize` writes one byte.
pub open spec fn encode_byte(b: u8) -> Seq<char> {
    if form_unreserved(b) {
        seq![(b as u32) as char]
    } else if b == 32 {
        seq!['+']
    } else {
        seq!['%', hex_upper(b / 16), hex_upper(b % 16)]
    }
}

pub open spec fn form_encode(bytes: Seq<u8>) -> Seq<char>
    decreases bytes.len(),
{
    if bytes.len() == 0 {
        seq![]
    } else {
        form_encode(bytes.drop_last()) + encode_byte(bytes.last())
    }
}

/// A text encoded for a URL query value: its UTF-8 bytes, each kept, turned
/// into `+` (a space) or written as `%XX`.
pub open spec fn url_encoded(s: Seq<char>) -> Seq<char> {
    form_encode(vstd::utf8::encode_utf8(s))
}

fn hex_upper_exec(n: u8) -> (c: char)
    requires
        n < 16,
    ensures
        c == hex_upper(n),
{
    if n < 10 {
        (n + 48) as char
    } else {
        (n + 55) as char
    }
}

pub fn url_encode(value: &str) -> (r: Vec<char>)
    ensures
        r@ == url_encoded(value@),
{
    let bytes = value.as_bytes();
    let mut r: Vec<char> = Vec::new();
    let mut i: usize = 0;
    while i < bytes.len()
        invariant
            i <= bytes@.len(),
            bytes@ == vstd::utf8::encode_utf8(value@),
            r@ == form_encode(bytes@.take(i as int)),
        decreases bytes.len() - i,
    {
        let b = bytes[i];
        if b == 42 || b == 45 || b == 46 || (48 <= b && b <= 57) || (65 <= b && b <= 90) || b == 95 || (97 <= b
            && b <= 122) {
            r.push(b as char);
        } else if b == 32 {
            r.push('+');
        } else {
            r.push('%');
            r.push(hex_upper_exec(b / 16));
            r.push(hex_upper_exec(b % 16));
        }
        proof {
            assert(bytes@.take(i + 1).drop_last() =~= bytes@.take(i as int));
            assert(bytes@.take(i + 1).last() == b);
            assert(r@ =~= form_encode(bytes@.take(i + 1)));
        }
        i += 1;
    }
    assert(bytes@.take(bytes@.len() as int) =~= bytes@);
    r
}

/// The user agent handed on to the proxy: trimmed, and dropped when blank.
pub open spec fn trimmed_ua(ua: Option<Seq<char>>) -> Option<Seq<char>> {
    match ua {
        Some(u) => if trim(u).len() > 0 {
            Some(trim(u))
        } else {
            None
        },
        None => None,
    }
}

/// The proxy address that fetches `target` as a playlist (`kind` "m3u8") or a
/// segment (`kind` "segment"), passing the user agent on.
pub open spec fn proxied_url(proxy_base: Seq<char>, kind: Seq<char>, target: Seq<char>, ua: Option<Seq<char>>) -> Seq<char> {
    proxy_base + "/proxy/"@ + kind + "?url="@ + url_encoded(target) + match trimmed_ua(ua) {
        Some(u) => "&ua="@ + url_encoded(u),
        None => seq![],
    }
}

fn proxied_url_exec(proxy_base: &str, kind: &str, target: &Vec<char>, ua: Option<&str>) -> (r: Vec<char>)
    ensures
        r@ == proxied_url(proxy_base@, kind@, target@, match ua {
            Some(u) => Some(u@),
            None => None,
        }),
{
    let mut r = chars_of(proxy_base);
    r = concat_vec(&r, &chars_of("/proxy/"));
    r = concat_vec(&r, &chars_of(kind));
    r = concat_vec(&r, &chars_of("?url="));
    let ts = string_of(target);
    r = concat_vec(&r, &url_encode(ts.as_str()));
    match ua {
        Some(u) => {
            let uc = chars_of(u);
            let ut = trim_vec(&uc);
            if ut.len() > 0 {
                let us = string_of(&ut);
                let tail = concat_vec(&chars_of("&ua="), &url_encode(us.as_str()));
                r = concat_vec(&r, &tail);
                assert(r@ =~= proxied_url(proxy_base@, kind@, target@, Some(u@)));
            } else {
                assert(r@ =~= proxied_url(proxy_base@, kind@, target@, Some(u@)));
            }
        },
        None => {
            assert(r@ =~= proxied_url(proxy_base@, kind@, target@, None));
        },
    }
    r
}

/// The local HLS proxy, known by its base address.
#[derive(Debug, Clone)]
pub struct ProxyServer {
    base_url: String,
}

impl ProxyServer {
    pub closed spec fn base(&self) -> Seq<char> {
        self.base_url@
    }

    /// The proxy that listens at `base_url`.
    pub fn with_base_url(base_url: String) -> (r: ProxyServer)
        ensures
            r.base() == base_url@,
    {
        ProxyServer { base_url }
    }

    pub fn base_url(&self) -> (r: &str)
        ensures
            r@ == self.base(),
    {
        self.base_url.as_str()
    }

    /// The proxy address that plays the playlist at `original`.
    pub fn proxied_m3u8_url(&self, original: &str) -> (r: String)
        ensures
            r@ == self.base() + "/proxy/m3u8?url="@ + url_encoded(original@),
    {
        let b = chars_of(self.base_url.as_str());
        let p = concat_vec(&b, &chars_of("/proxy/m3u8?url="));
        string_of(&concat_vec(&p, &url_encode(original)))
    }
}

/// The part of an address before its query.
pub open spec fn before_query(s: Seq<char>) -> Seq<char> {
    match find(s, seq!['?']) {
        Some(k) => s.subrange(0, k),
        None => s,
    }
}

/// An address whose path ends in `.m3u8` or `.m3u` (ASCII case ignored).
pub open spec fn is_playlist_url(value: Seq<char>) -> bool {
    let p = lower(before_query(value));
    ".m3u8"@.is_suffix_of(p) || ".m3u"@.is_suffix_of(p)
}

fn before_query_vec(s: &Vec<char>) -> (r: Vec<char>)
    ensures
        r@ == before_query(s@),
{
    let mut q: Vec<char> = Vec::new();
    q.push('?');
    assert(q@ =~= seq!['?']);
    proof {
        lemma_find_from(s@, q@, 0);
    }
    match find_exec(s, &q) {
        Some(k) => slice_vec(s, 0, k),
        None => s.clone(),
    }
}

/// Whether the part of the address before its query ends with `suffix`.
pub fn ends_with_suffix(value: &Vec<char>, suffix: &str) -> (r: bool)
    ensures
        r == suffix@.is_suffix_of(before_query(value@)),
{
    let b = before_query_vec(value);
    ends_with_exec(&b, &chars_of(suffix))
}

pub fn is_playlist_url_exec(value: &Vec<char>) -> (r: bool)
    ensures
        r == is_playlist_url(value@),
{
    let b = before_query_vec(value);
    let p = lower_vec(&b);
    ends_with_exec(&p, &chars_of(".m3u8")) || ends_with_exec(&p, &chars_of(".m3u"))
}

/// An address in a playlist resolved against the playlist's own address: an
/// absolute address as parsed, else joined to the playlist's address, whose
/// path is first taken as a directory unless it ends in `/`, `.m3u8` or `.m3u`.
pub open spec fn resolve_m3u8_url(base: Seq<char>, value: Seq<char>) -> Option<Seq<char>> {
    match parsed_url(value) {
        Some(u) => Some(u),
        None => match url_path_of(base) {
            None => None,
            Some(path) => {
                let lp = lower(path);
                let dir = if !seq!['/'].is_suffix_of(lp) && !".m3u8"@.is_suffix_of(lp) && !".m3u"@.is_suffix_of(lp) {
                    url_with_path(base, path.push('/'))
                } else {
                    Some(base)
                };
                match dir {
                    Some(d) => joined_url(d, value),
                    None => None,
                }
            },
        },
    }
}

fn resolve_m3u8_url_exec(base: &str, value: &Vec<char>) -> (r: Option<Vec<char>>)
    ensures
        opt_vec_view(r) == resolve_m3u8_url(base@, value@),
{
    let vs = string_of(value);
    match url_parse(vs.as_str()) {
        Some(u) => {
            return Some(chars_of(u.as_str()));
        },
        None => {},
    }
    let path = match url_path(base) {
        Some(p) => p,
        None => {
            return None;
        },
    };
    let pc = chars_of(path.as_str());
    let lp = lower_vec(&pc);
    let mut slash: Vec<char> = Vec::new();
    slash.push('/');
    assert(slash@ =~= seq!['/']);
    let dir = if !ends_with_exec(&lp, &slash) && !ends_with_exec(&lp, &chars_of(".m3u8")) && !ends_with_exec(
        &lp,
        &chars_of(".m3u"),
    ) {
        let mut np = pc.clone();
        np.push('/');
        let nps = string_of(&np);
        url_set_path(base, nps.as_str())
    } else {
        Some(String::from_str(base))
    };
    match dir {
        Some(d) => match url_join(d.as_str(), vs.as_str()) {
            Some(j) => Some(chars_of(j.as_str())),
            None => None,
        },
        None => None,
    }
}

/// A `URI="..."` attribute's address rewritten to go through the proxy as a segment.
pub open spec fn rewrite_uri_attribute_line(line: Seq<char>, base: Seq<char>, proxy: Seq<char>, ua: Option<Seq<char>>) -> Option<Seq<char>> {
    match find(line, "URI=\""@) {
        None => Some(line),
        Some(start) => {
            let uri_start = start + 5;
            let rest = line.subrange(uri_start, line.len() as int);
            match find(rest, seq!['"']) {
                None => Some(line),
                Some(rel) => {
                    let uri_end = uri_start + rel;
                    match resolve_m3u8_url(base, line.subrange(uri_start, uri_end)) {
                        None => None,
                        Some(key_url) => Some(
                            line.subrange(0, uri_start) + proxied_url(proxy, "segment"@, key_url, ua)
                                + line.subrange(uri_end, line.len() as int),
                        ),
                    }
                },
            }
        },
    }
}

fn rewrite_uri_attribute_line_exec(line: &Vec<char>, base: &str, proxy: &str, ua: Option<&str>) -> (r: Option<Vec<char>>)
    ensures
        opt_vec_view(r) == rewrite_uri_attribute_line(line@, base@, proxy@, match ua {
            Some(u) => Some(u@),
            None => None,
        }),
{
    let pat = chars_of("URI=\"");
    proof {
        reveal_strlit("URI=\"");
        lemma_find_from(line@, pat@, 0);
    }
    let start = match find_exec(line, &pat) {
        None => {
            return Some(line.clone());
        },
        Some(s) => s,
    };
    let n = line.len();
    let uri_start = start + 5;
    let rest = slice_vec(line, uri_start, n);
    let mut quote: Vec<char> = Vec::new();
    quote.push('"');
    assert(quote@ =~= seq!['"']);
    proof {
        lemma_find_from(rest@, quote@, 0);
    }
    let rel = match find_exec(&rest, &quote) {
        None => {
            return Some(line.clone());
        },
        Some(k) => k,
    };
    let uri_end = uri_start + rel;
    let uri = slice_vec(line, uri_start, uri_end);
    match resolve_m3u8_url_exec(base, &uri) {
        None => None,
        Some(key_url) => {
            let head = slice_vec(line, 0, uri_start);
            let tail = slice_vec(line, uri_end, n);
            let p = proxied_url_exec(proxy, "segment", &key_url, ua);
            let hp = concat_vec(&head, &p);
            Some(concat_vec(&hp, &tail))
        },
    }
}

/// One playlist line rewritten, and whether the next address is a playlist.
pub open spec fn rewrite_line(line: Seq<char>, base: Seq<char>, proxy: Seq<char>, ua: Option<Seq<char>>, next_is_playlist: bool) -> (Option<Seq<char>>, bool) {
    let t = trim(line);
    if "#EXT-X-KEY:"@.is_prefix_of(t) || "#EXT-X-MAP:"@.is_prefix_of(t) {
        (rewrite_uri_attribute_line(t, base, proxy, ua), next_is_playlist)
    } else if seq!['#'].is_prefix_of(t) {
        (Some(line), next_is_playlist || "#EXT-X-STREAM-INF"@.is_prefix_of(t))
    } else if t.len() == 0 {
        (Some(line), next_is_playlist)
    } else {
        match resolve_m3u8_url(base, t) {
            None => (None, next_is_playlist),
            Some(abs) => (
                Some(
                    proxied_url(
                        proxy,
                        if next_is_playlist || is_playlist_url(abs) {
                            "m3u8"@
                        } else {
                            "segment"@
                        },
                        abs,
                        ua,
                    ),
                ),
                false,
            ),
        }
    }
}

/// The rewritten lines from line `i` on; `None` where an address cannot be resolved.
pub open spec fn rewrite_from(ls: Seq<Seq<char>>, i: int, base: Seq<char>, proxy: Seq<char>, ua: Option<Seq<char>>, next_is_playlist: bool) -> Option<Seq<Seq<char>>>
    decreases ls.len() - i,
{
    if i < 0 || i >= ls.len() {
        Some(seq![])
    } else {
        let step = rewrite_line(ls[i], base, proxy, ua, next_is_playlist);
        match step.0 {
            None => None,
            Some(out) => match rewrite_from(ls, i + 1, base, proxy, ua, step.1) {
                Some(rest) => Some(seq![out] + rest),
                None => None,
            },
        }
    }
}

/// The playlist rewritten to go through the proxy, `None` where an address
/// in it cannot be resolved.
pub open spec fn rewritten_playlist(content: Seq<char>, base: Seq<char>, proxy: Seq<char>, ua: Option<Seq<char>>) -> Option<Seq<char>> {
    match rewrite_from(lines(content), 0, base, proxy, ua, false) {
        Some(out) => Some(join(out, seq!['\n'])),
        None => None,
    }
}

/// A playlist address that could not be resolved against the playlist's address.
#[derive(Debug, Clone, Copy, PartialEq, Eq)]
pub enum RewriteError {
    UnresolvableUrl,
}

/// Rewrites the addresses of a playlist fetched from `base_url` (the
/// serialization of its final URL) to go through the proxy at `proxy_base`.
pub fn rewrite_m3u8(content: &str, base_url: &str, proxy_base: &str, ua: Option<&str>) -> (r: Result<String, RewriteError>)
    ensures
        match r {
            Ok(s) => rewritten_playlist(content@, base_url@, proxy_base@, match ua {
                Some(u) => Some(u@),
                None => None,
            }) == Some(s@),
            Err(_) => rewritten_playlist(content@, base_url@, proxy_base@, match ua {
                Some(u) => Some(u@),
                None => None,
            }) is None,
        },
{
    let ghost uav: Option<Seq<char>> = match ua {
        Some(u) => Some(u@),
        None => None,
    };
    let c = chars_of(content);
    let ls = lines_vec(&c);
    let ghost L = views(ls@);
    assert(L == lines(content@));
    let key_tag = chars_of("#EXT-X-KEY:");
    let map_tag = chars_of("#EXT-X-MAP:");
    let stream_tag = chars_of("#EXT-X-STREAM-INF");
    let mut hash: Vec<char> = Vec::new();
    hash.push('#');
    assert(hash@ =~= seq!['#']);
    let mut output: Vec<Vec<char>> = Vec::new();
    let mut next_is_playlist = false;
    let mut i: usize = 0;
    assert(views(output@) + seq![] =~= views(output@));
    while i < ls.len()
        invariant
            i <= ls.len(),
            L == views(ls@),
            L == lines(content@),
            key_tag@ == "#EXT-X-KEY:"@,
            map_tag@ == "#EXT-X-MAP:"@,
            stream_tag@ == "#EXT-X-STREAM-INF"@,
            hash@ == seq!['#'],
            uav == match ua {
                Some(u) => Some(u@),
                None => None::<Seq<char>>,
            },
            match rewrite_from(L, i as int, base_url@, proxy_base@, uav, next_is_playlist) {
                Some(rest) => rewrite_from(L, 0, base_url@, proxy_base@, uav, false) == Some(views(output@) + rest),
                None => rewrite_from(L, 0, base_url@, proxy_base@, uav, false) is None,
            },
        decreases ls.len() - i,
    {
        let line = &ls[i];
        assert(L[i as int] == line@);
        let t = trim_vec(line);
        let out: Vec<char>;
        if starts_with_exec(&t, &key_tag) || starts_with_exec(&t, &map_tag) {
            match rewrite_uri_attribute_line_exec(&t, base_url, proxy_base, ua) {
                Some(o) => {
                    out = o;
                },
                None => {
                    assert(rewrite_from(L, i as int, base_url@, proxy_base@, uav, next_is_playlist) is None);
                    assert(rewrite_from(L, 0, base_url@, proxy_base@, uav, false) is None);
                    assert(rewritten_playlist(content@, base_url@, proxy_base@, uav) is None);
                    return Err(RewriteError::UnresolvableUrl);
                },
            }
        } else if starts_with_exec(&t, &hash) {
            if starts_with_exec(&t, &stream_tag) {
                next_is_playlist = true;
            }
            out = line.clone();
        } else if t.len() == 0 {
            out = line.clone();
        } else {
            match resolve_m3u8_url_exec(base_url, &t) {
                None => {
                    assert(rewrite_from(L, i as int, base_url@, proxy_base@, uav, next_is_playlist) is None);
                    assert(rewrite_from(L, 0, base_url@, proxy_base@, uav, false) is None);
                    assert(rewritten_playlist(content@, base_url@, proxy_base@, uav) is None);
                    return Err(RewriteError::UnresolvableUrl);
                },
                Some(abs) => {
                    let kind = if next_is_playlist || is_playlist_url_exec(&abs) {
                        "m3u8"
                    } else {
                        "segment"
                    };
                    out = proxied_url_exec(proxy_base, kind, &abs, ua);
                    next_is_playlist = false;
                },
            }
        }
        proof {
            assert(views(output@.push(out)) =~= views(output@).push(out@));
            let step = rewrite_line(L[i as int], base_url@, proxy_base@, uav, next_is_playlist);
            match rewrite_from(L, i + 1, base_url@, proxy_base@, uav, next_is_playlist) {
                Some(rest) => {
                    assert(views(output@).push(out@) + rest =~= views(output@) + (seq![out@] + rest));
                },
                None => {},
            }
        }
        output.push(out);
        i += 1;
    }
    let mut nl: Vec<char> = Vec::new();
    nl.push('\n');
    assert(nl@ =~= seq!['\n']);
    assert(views(output@) + seq![] =~= views(output@));
    Ok(string_of(&join_vec(&output, &nl)))
}


/// What rewriting does to one line: tag lines other than keys and maps, and
/// blank lines, stay as they are; an address line becomes a proxy address.
pub open spec fn rewritten_line_shape(line: Seq<char>, out: Seq<char>, proxy: Seq<char>) -> bool {
    let t = trim(line);
    &&& (!"#EXT-X-KEY:"@.is_prefix_of(t) && !"#EXT-X-MAP:"@.is_prefix_of(t) && (seq!['#'].is_prefix_of(t) || t.len() == 0))
        ==> out == line
    &&& (!seq!['#'].is_prefix_of(t) && t.len() > 0) ==> (proxy + "/proxy/"@).is_prefix_of(out)
}

proof fn lemma_rewrite_from_shape(
    ls: Seq<Seq<char>>,
    i: int,
    base: Seq<char>,
    proxy: Seq<char>,
    ua: Option<Seq<char>>,
    next_is_playlist: bool,
)
    requires
        0 <= i <= ls.len(),
    ensures
        rewrite_from(ls, i, base, proxy, ua, next_is_playlist) matches Some(out) ==> out.len() == ls.len() - i
            && forall|k: int| 0 <= k < out.len() ==> rewritten_line_shape(ls[i + k], #[trigger] out[k], proxy),
    decreases ls.len() - i,
{
    if i < ls.len() {
        let step = rewrite_line(ls[i], base, proxy, ua, next_is_playlist);
        lemma_rewrite_from_shape(ls, i + 1, base, proxy, ua, step.1);
        match rewrite_from(ls, i, base, proxy, ua, next_is_playlist) {
            Some(out) => {
                let first = step.0->0;
                let rest = rewrite_from(ls, i + 1, base, proxy, ua, step.1)->0;
                assert(out == seq![first] + rest);
                let t = trim(ls[i]);
                if !seq!['#'].is_prefix_of(t) && t.len() > 0 {
                    reveal_strlit("#EXT-X-KEY:");
                    reveal_strlit("#EXT-X-MAP:");
                    if "#EXT-X-KEY:"@.is_prefix_of(t) {
                        assert(t[0] == "#EXT-X-KEY:"@[0]);
                    }
                    if "#EXT-X-MAP:"@.is_prefix_of(t) {
                        assert(t[0] == "#EXT-X-MAP:"@[0]);
                    }
                    let abs = resolve_m3u8_url(base, t)->0;
                    let kind = if next_is_playlist || is_playlist_url(abs) { "m3u8"@ } else { "segment"@ };
                    assert(first == proxied_url(proxy, kind, abs, ua));
                    assert(first.subrange(0, (proxy + "/proxy/"@).len() as int) =~= proxy + "/proxy/"@);
                }
                assert forall|k: int| 0 <= k < out.len() implies rewritten_line_shape(ls[i + k], #[trigger] out[k], proxy) by {
                    if k > 0 {
                        assert(out[k] == rest[k - 1]);
                        assert(ls[i + k] == ls[(i + 1) + (k - 1)]);
                    }
                }
            },
            None => {},
        }
    } else {
        assert(rewrite_from(ls, i, base, proxy, ua, next_is_playlist) == Some(Seq::<Seq<char>>::empty()));
    }
}

/// A rewritten playlist has one line for each line of the playlist; tag lines
/// other than keys and maps, and blank lines, stay as they are, and every
/// address line becomes an address of the proxy.
pub proof fn law_rewrite_lines(content: Seq<char>, base: Seq<char>, proxy: Seq<char>, ua: Option<Seq<char>>)
    ensures
        rewrite_from(lines(content), 0, base, proxy, ua, false) matches Some(out) ==> out.len() == lines(content).len()
            && forall|k: int| 0 <= k < out.len() ==> rewritten_line_shape(lines(content)[k], #[trigger] out[k], proxy),
{
    lemma_rewrite_from_shape(lines(content), 0, base, proxy, ua, false);
}

proof fn lemma_not_key_or_map(t: Seq<char>)
    requires
        t.len() > 0,
        !seq!['#'].is_prefix_of(t) || "#EXT-X-STREAM-INF"@.is_prefix_of(t),
    ensures
        !"#EXT-X-KEY:"@.is_prefix_of(t),
        !"#EXT-X-MAP:"@.is_prefix_of(t),
{
    reveal_strlit("#EXT-X-KEY:");
    reveal_strlit("#EXT-X-MAP:");
    reveal_strlit("#EXT-X-STREAM-INF");
    let key = "#EXT-X-KEY:"@;
    let map = "#EXT-X-MAP:"@;
    let stream = "#EXT-X-STREAM-INF"@;
    if key.is_prefix_of(t) || map.is_prefix_of(t) {
        assert(t.subrange(0, 11)[0] == t[0] && t.subrange(0, 11)[7] == t[7]);
        assert(t[0] == '#');
        assert(t.subrange(0, 1) =~= seq!['#']);
        assert(seq!['#'].is_prefix_of(t));
        assert(stream.is_prefix_of(t));
        assert(t.subrange(0, 17)[7] == t[7]);
        assert(t[7] == 'S');
        assert(false);
    }
}

proof fn lemma_variant_after_tag(
    ls: Seq<Seq<char>>,
    k: int,
    j: int,
    base: Seq<char>,
    proxy: Seq<char>,
    ua: Option<Seq<char>>,
    abs: Seq<char>,
)
    requires
        0 <= k <= j < ls.len(),
        forall|m: int| k <= m < j ==> trim(#[trigger] ls[m]).len() == 0 || seq!['#'].is_prefix_of(trim(ls[m])),
        trim(ls[j]).len() > 0,
        !seq!['#'].is_prefix_of(trim(ls[j])),
        resolve_m3u8_url(base, trim(ls[j])) == Some(abs),
    ensures
        rewrite_from(ls, k, base, proxy, ua, true) matches Some(out) ==> out.len() > j - k
            && out[j - k] == proxied_url(proxy, "m3u8"@, abs, ua),
    decreases j - k,
{
    let step = rewrite_line(ls[k], base, proxy, ua, true);
    if k == j {
        lemma_not_key_or_map(trim(ls[j]));
        assert(step.0 == Some(proxied_url(proxy, "m3u8"@, abs, ua)));
    } else {
        assert(step.1);
        lemma_variant_after_tag(ls, k + 1, j, base, proxy, ua, abs);
        match rewrite_from(ls, k, base, proxy, ua, true) {
            Some(out) => {
                let rest = rewrite_from(ls, k + 1, base, proxy, ua, true)->0;
                assert(out == seq![step.0->0] + rest);
                assert(out[j - k] == rest[j - (k + 1)]);
            },
            None => {},
        }
    }
}

proof fn lemma_variant_from(
    ls: Seq<Seq<char>>,
    m: int,
    i: int,
    j: int,
    base: Seq<char>,
    proxy: Seq<char>,
    ua: Option<Seq<char>>,
    flag: bool,
    abs: Seq<char>,
)
    requires
        0 <= m <= i < j < ls.len(),
        "#EXT-X-STREAM-INF"@.is_prefix_of(trim(ls[i])),
        forall|k: int| i < k < j ==> trim(#[trigger] ls[k]).len() == 0 || seq!['#'].is_prefix_of(trim(ls[k])),
        trim(ls[j]).len() > 0,
        !seq!['#'].is_prefix_of(trim(ls[j])),
        resolve_m3u8_url(base, trim(ls[j])) == Some(abs),
    ensures
        rewrite_from(ls, m, base, proxy, ua, flag) matches Some(out) ==> out.len() > j - m
            && out[j - m] == proxied_url(proxy, "m3u8"@, abs, ua),
    decreases i - m,
{
    let step = rewrite_line(ls[m], base, proxy, ua, flag);
    if m == i {
        let t = trim(ls[i]);
        reveal_strlit("#EXT-X-STREAM-INF");
        assert(t.len() > 0);
        assert(seq!['#'].is_prefix_of(t)) by {
            assert(t.subrange(0, 1) =~= seq!['#']);
            assert(t[0] == "#EXT-X-STREAM-INF"@[0]);
            assert(t.subrange(0, 17)[0] == t[0]);
        }
        lemma_not_key_or_map(t);
        assert(step.1);
        lemma_variant_after_tag(ls, i + 1, j, base, proxy, ua, abs);
    } else {
        lemma_variant_from(ls, m + 1, i, j, base, proxy, ua, step.1, abs);
    }
    match rewrite_from(ls, m, base, proxy, ua, flag) {
        Some(out) => {
            let rest = rewrite_from(ls, m + 1, base, proxy, ua, step.1)->0;
            assert(out == seq![step.0->0] + rest);
            assert(out[j - m] == rest[j - (m + 1)]);
        },
        None => {},
    }
}

/// In a rewritten playlist, the first address line after an
/// `#EXT-X-STREAM-INF` tag (only blank lines and tags between them) is a
/// variant playlist: it becomes the proxy's playlist address for the
/// resolved address, `proxy + "/proxy/m3u8?url=" + encoded address`, with the
/// user agent after it, whatever the address ends in.
pub proof fn law_variant_playlists_proxied(
    content: Seq<char>,
    base: Seq<char>,
    proxy: Seq<char>,
    ua: Option<Seq<char>>,
    i: int,
    j: int,
)
    requires
        0 <= i < j < lines(content).len(),
        "#EXT-X-STREAM-INF"@.is_prefix_of(trim(lines(content)[i])),
        forall|k: int| i < k < j ==> trim(#[trigger] lines(content)[k]).len() == 0 || seq!['#'].is_prefix_of(trim(lines(content)[k])),
        trim(lines(content)[j]).len() > 0,
        !seq!['#'].is_prefix_of(trim(lines(content)[j])),
        resolve_m3u8_url(base, trim(lines(content)[j])) is Some,
    ensures
        rewrite_from(lines(content), 0, base, proxy, ua, false) matches Some(out) ==> {
            let abs = resolve_m3u8_url(base, trim(lines(content)[j]))->0;
            &&& out[j] == proxied_url(proxy, "m3u8"@, abs, ua)
            &&& (proxy + "/proxy/m3u8?url="@ + url_encoded(abs)).is_prefix_of(out[j])
        },
{
    let ls = lines(content);
    let abs = resolve_m3u8_url(base, trim(ls[j]))->0;
    lemma_variant_from(ls, 0, i, j, base, proxy, ua, false, abs);
    reveal_strlit("/proxy/m3u8?url=");
    reveal_strlit("/proxy/");
    reveal_strlit("m3u8");
    reveal_strlit("?url=");
    let head = proxy + "/proxy/m3u8?url="@ + url_encoded(abs);
    let p = proxied_url(proxy, "m3u8"@, abs, ua);
    assert(p.subrange(0, head.len() as int) =~= head);
}

proof fn lemma_rewrite_at(
    ls: Seq<Seq<char>>,
    m: int,
    j: int,
    base: Seq<char>,
    proxy: Seq<char>,
    ua: Option<Seq<char>>,
    flag: bool,
)
    requires
        0 <= m <= j < ls.len(),
    ensures
        rewrite_from(ls, m, base, proxy, ua, flag) matches Some(out) ==> out.len() > j - m && exists|f: bool|
            #[trigger] rewrite_line(ls[j], base, proxy, ua, f).0 == Some(out[j - m]),
    decreases j - m,
{
    let step = rewrite_line(ls[m], base, proxy, ua, flag);
    if m < j {
        lemma_rewrite_at(ls, m + 1, j, base, proxy, ua, step.1);
    }
    match rewrite_from(ls, m, base, proxy, ua, flag) {
        Some(out) => {
            let rest = rewrite_from(ls, m + 1, base, proxy, ua, step.1)->0;
            assert(out == seq![step.0->0] + rest);
            if m < j {
                assert(out[j - m] == rest[j - (m + 1)]);
            } else {
                assert(rewrite_line(ls[j], base, proxy, ua, flag).0 == Some(out[j - m]));
            }
        },
        None => {},
    }
}

proof fn lemma_plain_walk(
    ls: Seq<Seq<char>>,
    k: int,
    j: int,
    base: Seq<char>,
    proxy: Seq<char>,
    ua: Option<Seq<char>>,
)
    requires
        0 <= k <= j < ls.len(),
        forall|m: int| k <= m < j ==> trim(#[trigger] ls[m]).len() == 0 || (seq!['#'].is_prefix_of(trim(ls[m]))
            && !"#EXT-X-STREAM-INF"@.is_prefix_of(trim(ls[m]))),
    ensures
        rewrite_from(ls, k, base, proxy, ua, false) matches Some(out) ==> out.len() > j - k
            && rewrite_line(ls[j], base, proxy, ua, false).0 == Some(out[j - k]),
    decreases j - k,
{
    let step = rewrite_line(ls[k], base, proxy, ua, false);
    if k < j {
        assert(!step.1);
        lemma_plain_walk(ls, k + 1, j, base, proxy, ua);
    }
    match rewrite_from(ls, k, base, proxy, ua, false) {
        Some(out) => {
            let rest = rewrite_from(ls, k + 1, base, proxy, ua, step.1)->0;
            assert(out == seq![step.0->0] + rest);
            if k < j {
                assert(out[j - k] == rest[j - (k + 1)]);
            }
        },
        None => {},
    }
}

proof fn lemma_walk_to_address(
    ls: Seq<Seq<char>>,
    m: int,
    p: int,
    j: int,
    base: Seq<char>,
    proxy: Seq<char>,
    ua: Option<Seq<char>>,
    flag: bool,
)
    requires
        0 <= m <= p < j < ls.len(),
        trim(ls[p]).len() > 0,
        !seq!['#'].is_prefix_of(trim(ls[p])),
        forall|k: int| p < k < j ==> trim(#[trigger] ls[k]).len() == 0 || (seq!['#'].is_prefix_of(trim(ls[k]))
            && !"#EXT-X-STREAM-INF"@.is_prefix_of(trim(ls[k]))),
    ensures
        rewrite_from(ls, m, base, proxy, ua, flag) matches Some(out) ==> out.len() > j - m
            && rewrite_line(ls[j], base, proxy, ua, false).0 == Some(out[j - m]),
    decreases p - m,
{
    let step = rewrite_line(ls[m], base, proxy, ua, flag);
    if m < p {
        lemma_walk_to_address(ls, m + 1, p, j, base, proxy, ua, step.1);
    } else {
        lemma_not_key_or_map(trim(ls[p]));
        if step.0 is Some {
            assert(!step.1);
        }
        lemma_plain_walk(ls, p + 1, j, base, proxy, ua);
    }
    match rewrite_from(ls, m, base, proxy, ua, flag) {
        Some(out) => {
            let rest = rewrite_from(ls, m + 1, base, proxy, ua, step.1)->0;
            assert(out == seq![step.0->0] + rest);
            assert(out[j - m] == rest[j - (m + 1)]);
        },
        None => {},
    }
}

/// In a rewritten playlist an address line becomes the proxy address of its
/// resolved address, with the user agent after it: a playlist address when
/// the resolved address names a playlist (`.m3u8` or `.m3u` before any
/// query), whatever comes before it; and a segment address when it does not
/// and no `#EXT-X-STREAM-INF` tag stands between the previous address line
/// (or the start) and it.
pub proof fn law_address_lines_proxied(
    content: Seq<char>,
    base: Seq<char>,
    proxy: Seq<char>,
    ua: Option<Seq<char>>,
    j: int,
)
    requires
        0 <= j < lines(content).len(),
        trim(lines(content)[j]).len() > 0,
        !seq!['#'].is_prefix_of(trim(lines(content)[j])),
        resolve_m3u8_url(base, trim(lines(content)[j])) is Some,
    ensures
        rewrite_from(lines(content), 0, base, proxy, ua, false) matches Some(out) ==> {
            let abs = resolve_m3u8_url(base, trim(lines(content)[j]))->0;
            &&& is_playlist_url(abs) ==> out[j] == proxied_url(proxy, "m3u8"@, abs, ua)
            &&& (!is_playlist_url(abs) && (exists|p: int| -1 <= p < j
                && (p == -1 || (trim(lines(content)[p]).len() > 0 && !seq!['#'].is_prefix_of(trim(lines(content)[p]))))
                && forall|k: int| p < k < j ==> trim(#[trigger] lines(content)[k]).len() == 0 || (seq!['#'].is_prefix_of(trim(lines(content)[k]))
                    && !"#EXT-X-STREAM-INF"@.is_prefix_of(trim(lines(content)[k])))))
                ==> out[j] == proxied_url(proxy, "segment"@, abs, ua)
        },
{
    let ls = lines(content);
    let t = trim(ls[j]);
    let abs = resolve_m3u8_url(base, t)->0;
    lemma_not_key_or_map(t);
    lemma_rewrite_at(ls, 0, j, base, proxy, ua, false);
    match rewrite_from(ls, 0, base, proxy, ua, false) {
        Some(out) => {
            if is_playlist_url(abs) {
                let f = choose|f: bool| #[trigger] rewrite_line(ls[j], base, proxy, ua, f).0 == Some(out[j]);
                assert(rewrite_line(ls[j], base, proxy, ua, f).0 == Some(proxied_url(proxy, "m3u8"@, abs, ua)));
            }
            if !is_playlist_url(abs) && (exists|p: int| -1 <= p < j
                && (p == -1 || (trim(ls[p]).len() > 0 && !seq!['#'].is_prefix_of(trim(ls[p]))))
                && forall|k: int| p < k < j ==> trim(#[trigger] ls[k]).len() == 0 || (seq!['#'].is_prefix_of(trim(ls[k]))
                    && !"#EXT-X-STREAM-INF"@.is_prefix_of(trim(ls[k])))) {
                let p = choose|p: int| -1 <= p < j
                    && (p == -1 || (trim(ls[p]).len() > 0 && !seq!['#'].is_prefix_of(trim(ls[p]))))
                    && forall|k: int| p < k < j ==> trim(#[trigger] ls[k]).len() == 0 || (seq!['#'].is_prefix_of(trim(ls[k]))
                        && !"#EXT-X-STREAM-INF"@.is_prefix_of(trim(ls[k])));
                if p == -1 {
                    lemma_plain_walk(ls, 0, j, base, proxy, ua);
                } else {
                    lemma_walk_to_address(ls, 0, p, j, base, proxy, ua, false);
                }
                assert(rewrite_line(ls[j], base, proxy, ua, false).0 == Some(proxied_url(proxy, "segment"@, abs, ua)));
            }
        },
        None => {},
    }
}

/// A character that an encoded query value may hold: an ASCII letter or
/// digit, `*`, `-`, `.`, `_`, `+` or `%`.
pub open spec fn query_safe_char(c: char) -> bool {
    ('0' <= c && c <= '9') || ('A' <= c && c <= 'Z') || ('a' <= c && c <= 'z') || c == '*' || c == '-' || c == '.'
        || c == '_' || c == '+' || c == '%'
}

proof fn lemma_form_encode_safe(bytes: Seq<u8>)
    ensures
        forall|i: int| 0 <= i < form_encode(bytes).len() ==> query_safe_char(#[trigger] form_encode(bytes)[i]),
    decreases bytes.len(),
{
    if bytes.len() > 0 {
        lemma_form_encode_safe(bytes.drop_last());
        let p = form_encode(bytes.drop_last());
        let b = bytes.last();
        let e = encode_byte(b);
        assert forall|i: int| 0 <= i < e.len() implies query_safe_char(#[trigger] e[i]) by {
            if form_unreserved(b) {
                assert(e[i] == ((b as u32) as char));
            } else if b != 32 {
                assert(b / 16 < 16);
                assert(b % 16 < 16);
            }
        }
        let r = form_encode(bytes);
        assert forall|i: int| 0 <= i < r.len() implies query_safe_char(#[trigger] r[i]) by {
            if i < p.len() {
                assert(r[i] == p[i]);
            } else {
                assert(r[i] == e[i - p.len()]);
            }
        }
    }
}

/// An encoded query value holds only letters, digits and `*-._+%`, so it
/// never ends the value or the query it stands in.
pub proof fn law_url_encoded_safe(s: Seq<char>)
    ensures
        forall|i: int| 0 <= i < url_encoded(s).len() ==> query_safe_char(#[trigger] url_encoded(s)[i]),
{
    lemma_form_encode_safe(vstd::utf8::encode_utf8(s));
}

// ---------------------------------------------------------------- request safety and headers

/// Why an address may not be fetched through the proxy.
#[derive(Debug, Clone, Copy, PartialEq, Eq)]
pub enum SafeUrlError {
    Invalid,
    UnsupportedScheme,
    Credentials,
}

/// An address carries credentials when its user name is not empty or it has a password.
pub open spec fn has_credentials(user: Option<Seq<char>>, password: Option<Option<Seq<char>>>) -> bool {
    match (user, password) {
        (Some(u), Some(p)) => u.len() > 0 || p is Some,
        _ => false,
    }
}

/// An address that the proxy may fetch: it parses, its scheme is `http` or
/// `https`, and it carries no user name or password.
pub open spec fn safe_url_result(value: Seq<char>) -> Result<Seq<char>, SafeUrlError> {
    match parsed_url(value) {
        None => Err(SafeUrlError::Invalid),
        Some(u) => {
            let scheme = url_scheme_of(value)->0;
            if scheme != "http"@ && scheme != "https"@ {
                Err(SafeUrlError::UnsupportedScheme)
            } else if has_credentials(url_username_of(value), url_password_of(value)) {
                Err(SafeUrlError::Credentials)
            } else {
                Ok(u)
            }
        },
    }
}

/// Checks an address before the proxy fetches it; returns its serialization.
pub fn safe_url(value: &str) -> (r: Result<String, SafeUrlError>)
    ensures
        match r {
            Ok(u) => safe_url_result(value@) == Ok::<Seq<char>, SafeUrlError>(u@),
            Err(e) => safe_url_result(value@) == Err::<Seq<char>, SafeUrlError>(e),
        },
{
    let u = match url_parse(value) {
        Some(u) => u,
        None => {
            return Err(SafeUrlError::Invalid);
        },
    };
    let scheme = match url_scheme(value) {
        Some(s) => s,
        None => {
            return Err(SafeUrlError::Invalid);
        },
    };
    let sc = chars_of(scheme.as_str());
    if !eq_vec(&sc, &chars_of("http")) && !eq_vec(&sc, &chars_of("https")) {
        return Err(SafeUrlError::UnsupportedScheme);
    }
    match (url_username(value), url_password(value)) {
        (Some(user), Some(password)) => {
            if !user.as_str().is_empty() || password.is_some() {
                Err(SafeUrlError::Credentials)
            } else {
                Ok(u)
            }
        },
        _ => Ok(u),
    }
}

/// The user agent that the proxy sends when the request names none.
pub fn default_user_agent() -> (r: &'static str)
    ensures
        r@ == "Mozilla/5.0 (Windows NT 10.0; Win64; x64) AppleWebKit/537.36"@,
{
    "Mozilla/5.0 (Windows NT 10.0; Win64; x64) AppleWebKit/537.36"
}

/// The user agent sent upstream: the requested one trimmed, else the default.
pub fn upstream_user_agent(ua: Option<&str>) -> (r: String)
    ensures
        r@ == match trimmed_ua(match ua {
            Some(u) => Some(u@),
            None => None,
        }) {
            Some(u) => u,
            None => "Mozilla/5.0 (Windows NT 10.0; Win64; x64) AppleWebKit/537.36"@,
        },
{
    match ua {
        Some(u) => {
            let c = chars_of(u);
            let t = trim_vec(&c);
            if t.len() > 0 {
                return string_of(&t);
            }
        },
        None => {},
    }
    String::from_str(default_user_agent())
}

/// The referer sent upstream: the origin of the fetched address, `scheme://host/`.
pub open spec fn referer_of(url: Seq<char>) -> Option<Seq<char>> {
    match url_host_of(url) {
        Some(Some(h)) => Some(url_scheme_of(url)->0 + "://"@ + h + "/"@),
        _ => None,
    }
}

pub fn upstream_referer(url: &str) -> (r: Option<String>)
    ensures
        opt_view(r) == referer_of(url@),
{
    match url_host(url) {
        Some(Some(h)) => {
            let scheme = match url_scheme(url) {
                Some(s) => s,
                None => {
                    return None;
                },
            };
            let s = concat_vec(&chars_of(scheme.as_str()), &chars_of("://"));
            let sh = concat_vec(&s, &chars_of(h.as_str()));
            Some(string_of(&concat_vec(&sh, &chars_of("/"))))
        },
        _ => None,
    }
}

/// The content type served for a segment: `video/mp2t` for MPEG-TS, MPEG,
/// video and octet-stream types, else the upstream type as it came.
pub open spec fn segment_content_type(value: Seq<char>) -> Seq<char> {
    let l = lower(value);
    if contains(l, "mp2t"@) || contains(l, "mpeg"@) || contains(l, "video/"@) || contains(l, "octet-stream"@) {
        "video/mp2t"@
    } else {
        value
    }
}

pub fn segment_content_type_exec(value: &str) -> (r: String)
    ensures
        r@ == segment_content_type(value@),
{
    let c = chars_of(value);
    let l = lower_vec(&c);
    if contains_exec(&l, &chars_of("mp2t")) || contains_exec(&l, &chars_of("mpeg")) || contains_exec(
        &l,
        &chars_of("video/"),
    ) || contains_exec(&l, &chars_of("octet-stream")) {
        String::from_str("video/mp2t")
    } else {
        String::from_str(value)
    }
}

} // verus!
