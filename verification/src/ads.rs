//! Markers of advertisements in addresses and playlists.
use vstd::prelude::*;
use crate::text::{chars_of, contains, contains_exec, ends_with_exec, eq_vec, lower, lower_vec, trim, trim_vec, views};

verus! {

broadcast use vstd::string::group_string_axioms;

/// The words that mark an address or a playlist line as an advertisement.
pub open spec fn ad_keywords() -> Seq<Seq<char>> {
    seq![
        "sponsor"@,
        "/ad/"@,
        "/ads/"@,
        "advert"@,
        "advertisement"@,
        "/adjump"@,
        "redtraffic"@,
        "googleads"@,
        "doubleclick"@,
        "imasdk"@,
        "adservice"@,
        "adserver"@,
        "pre-roll"@,
        "preroll"@,
        "midroll"@,
    ]
}

/// Some of `ks` occurs in `s`.
pub open spec fn contains_any(s: Seq<char>, ks: Seq<Seq<char>>) -> bool
    decreases ks.len(),
{
    if ks.len() == 0 {
        false
    } else {
        contains_any(s, ks.drop_last()) || contains(s, ks.last())
    }
}

pub fn ad_keywords_vec() -> (r: Vec<Vec<char>>)
    ensures
        views(r@) == ad_keywords(),
{
    let mut r: Vec<Vec<char>> = Vec::new();
    r.push(chars_of("sponsor"));
    r.push(chars_of("/ad/"));
    r.push(chars_of("/ads/"));
    r.push(chars_of("advert"));
    r.push(chars_of("advertisement"));
    r.push(chars_of("/adjump"));
    r.push(chars_of("redtraffic"));
    r.push(chars_of("googleads"));
    r.push(chars_of("doubleclick"));
    r.push(chars_of("imasdk"));
    r.push(chars_of("adservice"));
    r.push(chars_of("adserver"));
    r.push(chars_of("pre-roll"));
    r.push(chars_of("preroll"));
    r.push(chars_of("midroll"));
    assert(views(r@) =~= ad_keywords());
    r
}

pub fn contains_any_exec(s: &Vec<char>, ks: &Vec<Vec<char>>) -> (r: bool)
    ensures
        r == contains_any(s@, views(ks@)),
{
    let mut i: usize = 0;
    while i < ks.len()
        invariant
            i <= ks.len(),
            !contains_any(s@, views(ks@).take(i as int)),
        decreases ks.len() - i,
    {
        proof {
            assert(views(ks@).take(i + 1).drop_last() =~= views(ks@).take(i as int));
        }
        if contains_exec(s, &ks[i]) {
            proof {
                lemma_contains_any_prefix(s@, views(ks@), i + 1);
            }
            return true;
        }
        i += 1;
    }
    assert(views(ks@).take(ks.len() as int) =~= views(ks@));
    false
}

proof fn lemma_contains_any_prefix(s: Seq<char>, ks: Seq<Seq<char>>, n: int)
    requires
        0 <= n <= ks.len(),
        contains_any(s, ks.take(n)),
    ensures
        contains_any(s, ks),
    decreases ks.len() - n,
{
    if n < ks.len() {
        assert(ks.take(n + 1).drop_last() =~= ks.take(n));
        lemma_contains_any_prefix(s, ks, n + 1);
    } else {
        assert(ks.take(n) =~= ks);
    }
}

/// The address (ASCII case ignored) holds an advertisement word.
pub open spec fn contains_ad_marker(value: Seq<char>) -> bool {
    contains_any(lower(value), ad_keywords())
}

pub fn contains_ad_marker_exec(value: &Vec<char>) -> (r: bool)
    ensures
        r == contains_ad_marker(value@),
{
    let l = lower_vec(value);
    let ks = ad_keywords_vec();
    contains_any_exec(&l, &ks)
}

/// A segment named like `ad.ts`, `ads.ts`, `ad.m4s` or `ads.m4s`.
pub open spec fn looks_like_short_ad_name(value: Seq<char>) -> bool {
    let l = lower(trim(value));
    l == "ad.ts"@ || l == "ads.ts"@ || l == "ad.m4s"@ || l == "ads.m4s"@ || "/ad.ts"@.is_suffix_of(l)
        || "/ads.ts"@.is_suffix_of(l) || "/ad.m4s"@.is_suffix_of(l) || "/ads.m4s"@.is_suffix_of(l)
}

pub fn looks_like_short_ad_name_exec(value: &Vec<char>) -> (r: bool)
    ensures
        r == looks_like_short_ad_name(value@),
{
    let t = trim_vec(value);
    let l = lower_vec(&t);
    eq_vec(&l, &chars_of("ad.ts")) || eq_vec(&l, &chars_of("ads.ts")) || eq_vec(&l, &chars_of("ad.m4s"))
        || eq_vec(&l, &chars_of("ads.m4s")) || ends_with_exec(&l, &chars_of("/ad.ts"))
        || ends_with_exec(&l, &chars_of("/ads.ts")) || ends_with_exec(&l, &chars_of("/ad.m4s"))
        || ends_with_exec(&l, &chars_of("/ads.m4s"))
}

} // verus!
