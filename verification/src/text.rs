use vstd::prelude::*;

verus! {

broadcast use vstd::string::group_string_axioms;

/// Appends one character to a string.
#[verifier::external_body]
pub(crate) fn push_char(s: &mut String, c: char)
    ensures
        final(s)@ == old(s)@.push(c),
{
    s.push(c);
}

/// The characters of a string slice, in order.
pub fn chars_of(s: &str) -> (v: Vec<char>)
    ensures
        v@ == s@,
{
    let mut v: Vec<char> = Vec::new();
    for c in it: s.chars()
        invariant
            v@ == it.seq().take(it.index() as int),
    {
        v.push(c);
    }
    v
}

/// The string made of the given characters.
pub fn string_of(v: &Vec<char>) -> (s: String)
    ensures
        s@ == v@,
{
    let mut s = String::new();
    let mut i: usize = 0;
    while i < v.len()
        invariant
            i <= v.len(),
            s@ == v@.take(i as int),
        decreases v.len() - i,
    {
        push_char(&mut s, v[i]);
        i += 1;
        assert(s@ == v@.take(i as int));
    }
    assert(v@.take(v.len() as int) == v@);
    s
}

pub open spec fn is_ws(c: char) -> bool {
    ('\t' <= c && c <= '\r') || c == ' ' || c == '\u{85}' || c == '\u{a0}' || c == '\u{1680}'
        || ('\u{2000}' <= c && c <= '\u{200a}') || c == '\u{2028}' || c == '\u{2029}'
        || c == '\u{202f}' || c == '\u{205f}' || c == '\u{3000}'
}

pub fn is_ws_exec(c: char) -> (r: bool)
    ensures
        r == is_ws(c),
{
    ('\t' <= c && c <= '\r') || c == ' ' || c == '\u{85}' || c == '\u{a0}' || c == '\u{1680}'
        || ('\u{2000}' <= c && c <= '\u{200a}') || c == '\u{2028}' || c == '\u{2029}'
        || c == '\u{202f}' || c == '\u{205f}' || c == '\u{3000}'
}

pub open spec fn lower_char(c: char) -> char {
    if 'A' <= c && c <= 'Z' { ((c as u32) + 32) as char } else { c }
}

pub fn lower_char_exec(c: char) -> (r: char)
    ensures r == lower_char(c),
{
    if 'A' <= c && c <= 'Z' { ((c as u8) + 32) as char } else { c }
}


pub open spec fn lower(s: Seq<char>) -> Seq<char> {
    s.map_values(|c: char| lower_char(c))
}

/// ASCII lowercase of a character sequence.
pub fn lower_vec(v: &Vec<char>) -> (r: Vec<char>)
    ensures
        r@ == lower(v@),
{
    let mut r: Vec<char> = Vec::new();
    let mut i: usize = 0;
    while i < v.len()
        invariant
            i <= v.len(),
            r@ == lower(v@.take(i as int)),
        decreases v.len() - i,
    {
        r.push(lower_char_exec(v[i]));
        i += 1;
        assert(lower(v@.take(i as int)) =~= lower(v@.take(i - 1)).push(lower_char(v@[i - 1])));
    }
    assert(v@.take(v.len() as int) =~= v@);
    r
}

/// Copy of `v[a..b]`.
pub fn slice_vec(v: &Vec<char>, a: usize, b: usize) -> (r: Vec<char>)
    requires
        a <= b <= v.len(),
    ensures
        r@ == v@.subrange(a as int, b as int),
{
    let mut r: Vec<char> = Vec::new();
    let mut i: usize = a;
    while i < b
        invariant
            a <= i <= b <= v.len(),
            r@ == v@.subrange(a as int, i as int),
        decreases b - i,
    {
        r.push(v[i]);
        i += 1;
        assert(r@ =~= v@.subrange(a as int, i as int));
    }
    r
}

/// `a` followed by `b`.
pub fn concat_vec(a: &Vec<char>, b: &Vec<char>) -> (r: Vec<char>)
    ensures
        r@ == a@ + b@,
{
    let mut r = a.clone();
    let mut i: usize = 0;
    while i < b.len()
        invariant
            i <= b.len(),
            r@ == a@ + b@.take(i as int),
        decreases b.len() - i,
    {
        r.push(b[i]);
        i += 1;
        assert(r@ =~= a@ + b@.take(i as int));
    }
    assert(b@.take(b.len() as int) =~= b@);
    r
}

pub fn eq_vec(a: &Vec<char>, b: &Vec<char>) -> (r: bool)
    ensures
        r == (a@ == b@),
{
    if a.len() != b.len() {
        return false;
    }
    let mut i: usize = 0;
    while i < a.len()
        invariant
            i <= a.len() == b.len(),
            forall|j: int| 0 <= j < i ==> a@[j] == b@[j],
        decreases a.len() - i,
    {
        if a[i] != b[i] {
            return false;
        }
        i += 1;
    }
    assert(a@ =~= b@);
    true
}

// ---------------------------------------------------------------- trimming

pub open spec fn trim_start(s: Seq<char>) -> Seq<char>
    decreases s.len(),
{
    if s.len() > 0 && is_ws(s[0]) {
        trim_start(s.drop_first())
    } else {
        s
    }
}

pub open spec fn trim_end(s: Seq<char>) -> Seq<char>
    decreases s.len(),
{
    if s.len() > 0 && is_ws(s.last()) {
        trim_end(s.drop_last())
    } else {
        s
    }
}

/// What `str::trim` keeps: the text without leading and trailing white space.
pub open spec fn trim(s: Seq<char>) -> Seq<char> {
    trim_end(trim_start(s))
}

proof fn lemma_trim_start_skip(s: Seq<char>, k: int)
    requires
        0 <= k <= s.len(),
        forall|j: int| 0 <= j < k ==> is_ws(s[j]),
    ensures
        trim_start(s) == trim_start(s.subrange(k, s.len() as int)),
    decreases k,
{
    if k > 0 {
        assert(s.drop_first() =~= s.subrange(1, s.len() as int));
        lemma_trim_start_skip(s.drop_first(), k - 1);
        assert(s.drop_first().subrange(k - 1, s.drop_first().len() as int) =~= s.subrange(
            k,
            s.len() as int,
        ));
    } else {
        assert(s.subrange(0, s.len() as int) =~= s);
    }
}

proof fn lemma_trim_end_skip(s: Seq<char>, k: int)
    requires
        0 <= k <= s.len(),
        forall|j: int| k <= j < s.len() ==> is_ws(s[j]),
    ensures
        trim_end(s) == trim_end(s.subrange(0, k)),
    decreases s.len() - k,
{
    if k < s.len() {
        lemma_trim_end_skip(s.drop_last(), k);
        assert(s.drop_last().subrange(0, k) =~= s.subrange(0, k));
    } else {
        assert(s.subrange(0, s.len() as int) =~= s);
    }
}

pub fn trim_start_vec(v: &Vec<char>) -> (r: Vec<char>)
    ensures
        r@ == trim_start(v@),
{
    let mut i: usize = 0;
    while i < v.len() && is_ws_exec(v[i])
        invariant
            i <= v.len(),
            forall|j: int| 0 <= j < i ==> is_ws(v@[j]),
        decreases v.len() - i,
    {
        i += 1;
    }
    proof {
        lemma_trim_start_skip(v@, i as int);
    }
    slice_vec(v, i, v.len())
}

pub fn trim_end_vec(v: &Vec<char>) -> (r: Vec<char>)
    ensures
        r@ == trim_end(v@),
{
    let mut k: usize = v.len();
    while k > 0 && is_ws_exec(v[k - 1])
        invariant
            k <= v.len(),
            forall|j: int| k <= j < v.len() ==> is_ws(v@[j]),
        decreases k,
    {
        k -= 1;
    }
    proof {
        lemma_trim_end_skip(v@, k as int);
        let t = v@.subrange(0, k as int);
        assert(t.len() == 0 || !is_ws(t.last()));
    }
    slice_vec(v, 0, k)
}

pub fn trim_vec(v: &Vec<char>) -> (r: Vec<char>)
    ensures
        r@ == trim(v@),
{
    let t = trim_start_vec(v);
    trim_end_vec(&t)
}

// ---------------------------------------------------------------- search

/// `p` occurs in `s` at position `i`.
pub open spec fn matches_at(s: Seq<char>, p: Seq<char>, i: int) -> bool {
    0 <= i && i + p.len() <= s.len() && s.subrange(i, i + p.len()) == p
}

/// The first position at or after `i` where `p` occurs in `s`.
pub open spec fn find_from(s: Seq<char>, p: Seq<char>, i: int) -> Option<int>
    decreases s.len() - i,
{
    if i < 0 || i + p.len() > s.len() {
        None
    } else if matches_at(s, p, i) {
        Some(i)
    } else if i >= s.len() {
        None
    } else {
        find_from(s, p, i + 1)
    }
}

/// The first position where `p` occurs in `s` (what `str::find` returns, counted in chars).
pub open spec fn find(s: Seq<char>, p: Seq<char>) -> Option<int> {
    find_from(s, p, 0)
}

pub open spec fn contains(s: Seq<char>, p: Seq<char>) -> bool {
    find(s, p) is Some
}

pub proof fn lemma_find_from(s: Seq<char>, p: Seq<char>, i: int)
    requires
        0 <= i,
    ensures
        match find_from(s, p, i) {
            Some(k) => i <= k && matches_at(s, p, k) && k + p.len() <= s.len() && forall|j: int|
                i <= j < k ==> !matches_at(s, p, j),
            None => forall|j: int| i <= j ==> !matches_at(s, p, j),
        },
    decreases s.len() - i,
{
    if i + p.len() > s.len() {
    } else if matches_at(s, p, i) {
    } else if i >= s.len() {
    } else {
        lemma_find_from(s, p, i + 1);
    }
}

pub fn matches_at_exec(s: &Vec<char>, p: &Vec<char>, i: usize) -> (r: bool)
    ensures
        r == matches_at(s@, p@, i as int),
{
    if i > s.len() || p.len() > s.len() - i {
        return false;
    }
    let mut j: usize = 0;
    while j < p.len()
        invariant
            i + p.len() <= s.len(),
            j <= p.len(),
            forall|t: int| 0 <= t < j ==> s@[i + t] == p@[t],
        decreases p.len() - j,
    {
        if s[i + j] != p[j] {
            assert(s@.subrange(i as int, i + p.len())[j as int] != p@[j as int]);
            return false;
        }
        j += 1;
    }
    assert(s@.subrange(i as int, i + p.len()) =~= p@);
    true
}

pub fn find_from_exec(s: &Vec<char>, p: &Vec<char>, from: usize) -> (r: Option<usize>)
    ensures
        match r {
            Some(k) => find_from(s@, p@, from as int) == Some(k as int),
            None => find_from(s@, p@, from as int) is None,
        },
{
    let mut i = from;
    while i <= s.len() && p.len() <= s.len() - i
        invariant
            from <= i,
            find_from(s@, p@, from as int) == find_from(s@, p@, i as int),
        decreases s.len() + 1 - i,
    {
        if matches_at_exec(s, p, i) {
            return Some(i);
        }
        if i >= s.len() {
            return None;
        }
        i += 1;
    }
    None
}

pub fn find_exec(s: &Vec<char>, p: &Vec<char>) -> (r: Option<usize>)
    ensures
        match r {
            Some(k) => find(s@, p@) == Some(k as int),
            None => find(s@, p@) is None,
        },
{
    find_from_exec(s, p, 0)
}

pub fn contains_exec(s: &Vec<char>, p: &Vec<char>) -> (r: bool)
    ensures
        r == contains(s@, p@),
{
    find_exec(s, p).is_some()
}

pub fn starts_with_exec(s: &Vec<char>, p: &Vec<char>) -> (r: bool)
    ensures
        r == p@.is_prefix_of(s@),
{
    let r = matches_at_exec(s, p, 0);
    proof {
        if r {
            assert(s@.subrange(0, p@.len() as int) == p@);
            assert(s@.take(p@.len() as int) =~= s@.subrange(0, p@.len() as int));
        }
        if p@.is_prefix_of(s@) {
            assert(s@.take(p@.len() as int) =~= s@.subrange(0, p@.len() as int));
        }
    }
    r
}

pub fn ends_with_exec(s: &Vec<char>, p: &Vec<char>) -> (r: bool)
    ensures
        r == p@.is_suffix_of(s@),
{
    if p.len() > s.len() {
        return false;
    }
    let r = matches_at_exec(s, p, s.len() - p.len());
    proof {
        assert(s@.skip(s@.len() - p@.len()) =~= s@.subrange(s@.len() - p@.len(), s@.len() as int));
    }
    r
}

/// The last position before `end` holding `c`.
pub open spec fn rfind_from(s: Seq<char>, c: char, end: int) -> Option<int>
    decreases end,
{
    if end <= 0 || end > s.len() {
        None
    } else if s[end - 1] == c {
        Some(end - 1)
    } else {
        rfind_from(s, c, end - 1)
    }
}

/// The last position of `c` in `s`.
pub open spec fn rfind(s: Seq<char>, c: char) -> Option<int> {
    rfind_from(s, c, s.len() as int)
}

pub proof fn lemma_rfind_from(s: Seq<char>, c: char, end: int)
    requires
        0 <= end <= s.len(),
    ensures
        match rfind_from(s, c, end) {
            Some(k) => 0 <= k < end && s[k] == c && forall|j: int| k < j < end ==> s[j] != c,
            None => forall|j: int| 0 <= j < end ==> s[j] != c,
        },
    decreases end,
{
    if end > 0 && s[end - 1] != c {
        lemma_rfind_from(s, c, end - 1);
    }
}

pub fn rfind_exec(s: &Vec<char>, c: char) -> (r: Option<usize>)
    ensures
        match r {
            Some(k) => rfind(s@, c) == Some(k as int),
            None => rfind(s@, c) is None,
        },
{
    let mut end = s.len();
    while end > 0
        invariant
            end <= s.len(),
            rfind(s@, c) == rfind_from(s@, c, end as int),
        decreases end,
    {
        if s[end - 1] == c {
            return Some(end - 1);
        }
        end -= 1;
    }
    None
}

// ---------------------------------------------------------------- splitting

pub open spec fn views(v: Seq<Vec<char>>) -> Seq<Seq<char>> {
    v.map_values(|x: Vec<char>| x@)
}

/// The pieces of `s` between occurrences of `sep` (what `str::split` yields).
pub open spec fn split(s: Seq<char>, sep: Seq<char>) -> Seq<Seq<char>>
    decreases s.len(),
{
    if sep.len() == 0 {
        seq![s]
    } else {
        match find(s, sep) {
            Some(i) => {
                proof {
                    lemma_find_from(s, sep, 0);
                }
                seq![s.subrange(0, i)] + split(s.subrange(i + sep.len(), s.len() as int), sep)
            },
            None => seq![s],
        }
    }
}

proof fn lemma_find_shift(s: Seq<char>, p: Seq<char>, a: int, i: int)
    requires
        0 <= a <= i,
        a <= s.len(),
    ensures
        find_from(s, p, i) == match find_from(s.subrange(a, s.len() as int), p, i - a) {
            Some(k) => Some(k + a),
            None => None::<int>,
        },
    decreases s.len() - i,
{
    let t = s.subrange(a, s.len() as int);
    if i + p.len() > s.len() {
    } else {
        assert(matches_at(s, p, i) == matches_at(t, p, i - a)) by {
            if i + p.len() <= s.len() {
                assert(s.subrange(i, i + p.len()) =~= t.subrange(i - a, i - a + p.len()));
            }
        }
        if matches_at(s, p, i) {
        } else if i >= s.len() {
        } else {
            lemma_find_shift(s, p, a, i + 1);
        }
    }
}

/// Splits `v` at every occurrence of the non-empty `sep`.
pub fn split_vec(v: &Vec<char>, sep: &Vec<char>) -> (r: Vec<Vec<char>>)
    requires
        sep.len() > 0,
    ensures
        views(r@) == split(v@, sep@),
{
    let mut r: Vec<Vec<char>> = Vec::new();
    let mut start: usize = 0;
    assert(v@.subrange(0, v.len() as int) =~= v@);
    assert(views(r@) + split(v@, sep@) =~= split(v@, sep@));
    loop
        invariant
            start <= v.len(),
            sep.len() > 0,
            views(r@) + split(v@.subrange(start as int, v.len() as int), sep@) == split(v@, sep@),
        decreases v.len() - start,
    {
        let ghost rest = v@.subrange(start as int, v.len() as int);
        proof {
            lemma_find_shift(v@, sep@, start as int, start as int);
            lemma_find_from(v@, sep@, start as int);
        }
        match find_from_exec(v, sep, start) {
            Some(k) => {
                let piece = slice_vec(v, start, k);
                proof {
                    let i = k - start;
                    assert(rest.subrange(0, i) =~= piece@);
                    assert(rest.subrange(i + sep@.len(), rest.len() as int) =~= v@.subrange(
                        k + sep@.len(),
                        v.len() as int,
                    ));
                    assert(views(r@.push(piece)) =~= views(r@).push(piece@));
                    assert(views(r@).push(piece@) + split(
                        v@.subrange(k + sep@.len(), v.len() as int),
                        sep@,
                    ) =~= views(r@) + split(rest, sep@));
                }
                r.push(piece);
                start = k + sep.len();
            },
            None => {
                let piece = slice_vec(v, start, v.len());
                proof {
                    assert(views(r@.push(piece)) =~= views(r@).push(piece@));
                    assert(views(r@) + split(rest, sep@) =~= views(r@).push(piece@));
                }
                r.push(piece);
                return r;
            },
        }
    }
}

// ---------------------------------------------------------------- lines

pub open spec fn strip_cr(s: Seq<char>) -> Seq<char> {
    if s.len() > 0 && s.last() == '\r' {
        s.drop_last()
    } else {
        s
    }
}

/// The lines of `s` (what `str::lines` yields): split at `\n`, a `\r` before the
/// `\n` removed, and no empty line after a final `\n`.
pub open spec fn lines(s: Seq<char>) -> Seq<Seq<char>>
    decreases s.len(),
{
    if s.len() == 0 {
        seq![]
    } else {
        match find(s, seq!['\n']) {
            Some(i) => {
                proof {
                    lemma_find_from(s, seq!['\n'], 0);
                }
                seq![strip_cr(s.subrange(0, i))] + lines(s.subrange(i + 1, s.len() as int))
            },
            None => seq![s],
        }
    }
}

pub fn strip_cr_vec(v: &Vec<char>) -> (r: Vec<char>)
    ensures
        r@ == strip_cr(v@),
{
    if v.len() > 0 && v[v.len() - 1] == '\r' {
        slice_vec(v, 0, v.len() - 1)
    } else {
        v.clone()
    }
}

pub fn lines_vec(v: &Vec<char>) -> (r: Vec<Vec<char>>)
    ensures
        views(r@) == lines(v@),
{
    let mut r: Vec<Vec<char>> = Vec::new();
    let mut start: usize = 0;
    let mut nl: Vec<char> = Vec::new();
    nl.push('\n');
    assert(nl@ =~= seq!['\n']);
    assert(v@.subrange(0, v.len() as int) =~= v@);
    assert(views(r@) + lines(v@) =~= lines(v@));
    while start < v.len()
        invariant
            start <= v.len(),
            nl@ == seq!['\n'],
            views(r@) + lines(v@.subrange(start as int, v.len() as int)) == lines(v@),
        decreases v.len() - start,
    {
        let ghost rest = v@.subrange(start as int, v.len() as int);
        proof {
            lemma_find_shift(v@, nl@, start as int, start as int);
            lemma_find_from(v@, nl@, start as int);
        }
        match find_from_exec(v, &nl, start) {
            Some(k) => {
                let raw = slice_vec(v, start, k);
                let piece = strip_cr_vec(&raw);
                proof {
                    let i = k - start;
                    assert(rest.subrange(0, i) =~= raw@);
                    assert(rest.subrange(i + 1, rest.len() as int) =~= v@.subrange(
                        k + 1,
                        v.len() as int,
                    ));
                    assert(views(r@.push(piece)) =~= views(r@).push(piece@));
                    assert(views(r@).push(piece@) + lines(v@.subrange(k + 1, v.len() as int))
                        =~= views(r@) + lines(rest));
                }
                r.push(piece);
                start = k + 1;
            },
            None => {
                let piece = slice_vec(v, start, v.len());
                proof {
                    assert(views(r@.push(piece)) =~= views(r@).push(piece@));
                    assert(views(r@) + lines(rest) =~= views(r@).push(piece@));
                }
                r.push(piece);
                return r;
            },
        }
    }
    proof {
        assert(v@.subrange(start as int, v.len() as int).len() == 0);
        assert(views(r@) + seq![] =~= views(r@));
    }
    r
}


// ---------------------------------------------------------------- joining, replacing

/// `pieces` joined with `sep` between neighbours.
pub open spec fn join(pieces: Seq<Seq<char>>, sep: Seq<char>) -> Seq<char>
    decreases pieces.len(),
{
    if pieces.len() == 0 {
        seq![]
    } else if pieces.len() == 1 {
        pieces[0]
    } else {
        join(pieces.drop_last(), sep) + sep + pieces.last()
    }
}

pub fn join_vec(pieces: &Vec<Vec<char>>, sep: &Vec<char>) -> (r: Vec<char>)
    ensures
        r@ == join(views(pieces@), sep@),
{
    let mut r: Vec<char> = Vec::new();
    let mut i: usize = 0;
    while i < pieces.len()
        invariant
            i <= pieces.len(),
            r@ == join(views(pieces@).take(i as int), sep@),
        decreases pieces.len() - i,
    {
        let ghost before = views(pieces@).take(i as int);
        if i > 0 {
            r = concat_vec(&r, sep);
        }
        r = concat_vec(&r, &pieces[i]);
        i += 1;
        proof {
            let now = views(pieces@).take(i as int);
            assert(now.drop_last() =~= before);
            assert(now.last() == pieces@[i - 1]@);
            if i == 1 {
                assert(before.len() == 0);
            }
        }
    }
    assert(views(pieces@).take(pieces.len() as int) =~= views(pieces@));
    r
}

/// Every occurrence of `from` replaced by `to`, left to right (what `str::replace` does).
pub open spec fn replace(s: Seq<char>, from: Seq<char>, to: Seq<char>) -> Seq<char> {
    join(split(s, from), to)
}

pub fn replace_vec(v: &Vec<char>, from: &Vec<char>, to: &Vec<char>) -> (r: Vec<char>)
    requires
        from.len() > 0,
    ensures
        r@ == replace(v@, from@, to@),
{
    let pieces = split_vec(v, from);
    join_vec(&pieces, to)
}

// ---------------------------------------------------------------- numbers

pub open spec fn digit_char(d: nat) -> char {
    ((d + 48) as u32) as char
}

/// The decimal digits of `n` (what `n.to_string()` gives).
pub open spec fn decimal(n: nat) -> Seq<char>
    decreases n,
{
    if n < 10 {
        seq![digit_char(n)]
    } else {
        decimal(n / 10).push(digit_char(n % 10))
    }
}

pub fn digit_char_exec(d: usize) -> (c: char)
    requires
        d < 10,
    ensures
        c == digit_char(d as nat),
{
    ((d as u8) + 48u8) as char
}

pub fn decimal_vec(n: usize) -> (r: Vec<char>)
    ensures
        r@ == decimal(n as nat),
    decreases n,
{
    if n < 10 {
        let mut r: Vec<char> = Vec::new();
        r.push(digit_char_exec(n));
        assert(r@ =~= seq![digit_char(n as nat)]);
        r
    } else {
        let mut r = decimal_vec(n / 10);
        r.push(digit_char_exec(n % 10));
        r
    }
}

// ---------------------------------------------------------------- affixes

/// `s` with every trailing `c` removed (what `str::trim_end_matches(c)` does).
pub open spec fn strip_trailing(s: Seq<char>, c: char) -> Seq<char>
    decreases s.len(),
{
    if s.len() > 0 && s.last() == c {
        strip_trailing(s.drop_last(), c)
    } else {
        s
    }
}

pub fn strip_trailing_vec(v: &Vec<char>, c: char) -> (r: Vec<char>)
    ensures
        r@ == strip_trailing(v@, c),
{
    let mut k: usize = v.len();
    assert(v@.subrange(0, v.len() as int) =~= v@);
    while k > 0 && v[k - 1] == c
        invariant
            k <= v.len(),
            strip_trailing(v@, c) == strip_trailing(v@.subrange(0, k as int), c),
        decreases k,
    {
        assert(v@.subrange(0, k as int).drop_last() =~= v@.subrange(0, k - 1));
        k -= 1;
    }
    proof {
        assert(v@.subrange(0, v.len() as int) =~= v@);
    }
    slice_vec(v, 0, k)
}

/// `s` with every leading copy of `p` removed (what `str::trim_start_matches(p)` does).
pub open spec fn strip_leading(s: Seq<char>, p: Seq<char>) -> Seq<char>
    decreases s.len(),
{
    if p.len() > 0 && p.is_prefix_of(s) {
        strip_leading(s.skip(p.len() as int), p)
    } else {
        s
    }
}

pub fn strip_leading_vec(v: &Vec<char>, p: &Vec<char>) -> (r: Vec<char>)
    ensures
        r@ == strip_leading(v@, p@),
{
    let mut k: usize = 0;
    assert(v@.subrange(0, v.len() as int) =~= v@);
    while p.len() > 0 && k <= v.len() && matches_at_exec(v, p, k)
        invariant
            k <= v.len(),
            strip_leading(v@, p@) == strip_leading(v@.subrange(k as int, v.len() as int), p@),
        decreases v.len() - k,
    {
        proof {
            let rest = v@.subrange(k as int, v.len() as int);
            assert(rest.take(p@.len() as int) =~= v@.subrange(k as int, k + p@.len()));
            assert(rest.skip(p@.len() as int) =~= v@.subrange(k + p@.len(), v.len() as int));
        }
        k += p.len();
    }
    proof {
        let rest = v@.subrange(k as int, v.len() as int);
        if p@.len() > 0 && p@.is_prefix_of(rest) {
            assert(rest.take(p@.len() as int) =~= v@.subrange(k as int, k + p@.len()));
        }
        assert(v@.subrange(0, v.len() as int) =~= v@);
    }
    slice_vec(v, k, v.len())
}

proof fn lemma_trim_start_shape(s: Seq<char>)
    ensures
        trim_start(s).len() == 0 || !is_ws(trim_start(s)[0]),
    decreases s.len(),
{
    if s.len() > 0 && is_ws(s[0]) {
        lemma_trim_start_shape(s.drop_first());
    }
}

proof fn lemma_trim_end_shape(s: Seq<char>)
    ensures
        trim_end(s).is_prefix_of(s),
        trim_end(s).len() == 0 || !is_ws(trim_end(s).last()),
    decreases s.len(),
{
    if s.len() > 0 && is_ws(s.last()) {
        lemma_trim_end_shape(s.drop_last());
        let t = trim_end(s.drop_last());
        assert forall|i: int| 0 <= i < t.len() implies t[i] == s[i] by {
            assert(t[i] == s.drop_last()[i]);
        }
    }
}

/// Trimming a trimmed text leaves it as it is.
pub proof fn lemma_trim_idempotent(s: Seq<char>)
    ensures
        trim(trim(s)) == trim(s),
{
    let a = trim_start(s);
    let t = trim_end(a);
    lemma_trim_start_shape(s);
    lemma_trim_end_shape(a);
    if t.len() > 0 {
        assert(t[0] == a[0]);
    }
    assert(trim_start(t) == t);
    assert(trim_end(t) == t);
}

/// Removing trailing copies of `c` twice removes no more than once.
pub proof fn lemma_strip_trailing_idempotent(s: Seq<char>, c: char)
    ensures
        strip_trailing(strip_trailing(s, c), c) == strip_trailing(s, c),
    decreases s.len(),
{
    if s.len() > 0 && s.last() == c {
        lemma_strip_trailing_idempotent(s.drop_last(), c);
    }
}

proof fn lemma_no_match_char(s: Seq<char>, c: char, j: int)
    requires
        0 <= j < s.len(),
        !matches_at(s, seq![c], j),
    ensures
        s[j] != c,
{
    if s[j] == c {
        assert(s.subrange(j, j + 1) =~= seq![c]);
    }
}

proof fn lemma_find_char(s: Seq<char>, c: char)
    ensures
        !s.contains(c) ==> find(s, seq![c]) is None,
        find(s, seq![c]) matches Some(k) ==> 0 <= k < s.len() && s[k] == c && forall|j: int| 0 <= j < k ==> s[j] != c,
        find(s, seq![c]) is None ==> !s.contains(c),
{
    lemma_find_from(s, seq![c], 0);
    match find(s, seq![c]) {
        Some(k) => {
            assert(s.subrange(k, k + 1)[0] == s[k]);
            assert(s.contains(s[k]));
            assert forall|j: int| 0 <= j < k implies s[j] != c by {
                lemma_no_match_char(s, c, j);
            }
        },
        None => {
            assert forall|j: int| 0 <= j < s.len() implies s[j] != c by {
                lemma_no_match_char(s, c, j);
            }
        },
    }
}

/// No line of a text holds a line feed, and the lines of a text without
/// carriage returns hold none either.
pub proof fn lemma_lines_shape(s: Seq<char>)
    ensures
        forall|k: int| 0 <= k < lines(s).len() ==> !(#[trigger] lines(s)[k]).contains('\n'),
        !s.contains('\r') ==> forall|k: int| 0 <= k < lines(s).len() ==> !(#[trigger] lines(s)[k]).contains('\r'),
    decreases s.len(),
{
    if s.len() > 0 {
        lemma_find_char(s, '\n');
        match find(s, seq!['\n']) {
            Some(i) => {
                let piece = strip_cr(s.subrange(0, i));
                let rest = s.subrange(i + 1, s.len() as int);
                lemma_lines_shape(rest);
                assert forall|t: int| 0 <= t < piece.len() implies piece[t] == s[t] by {}
                if !s.contains('\r') {
                    assert forall|t: int| 0 <= t < rest.len() implies rest[t] != '\r' by {
                        assert(rest[t] == s[t + i + 1]);
                    }
                    assert(!rest.contains('\r'));
                }
                let l = lines(s);
                assert(l == seq![piece] + lines(rest));
                assert forall|k: int| 0 <= k < l.len() implies !(#[trigger] l[k]).contains('\n') && (!s.contains('\r')
                    ==> !l[k].contains('\r')) by {
                    if k == 0 {
                        assert(l[0] == piece);
                        if piece.contains('\n') {
                            let t = choose|t: int| 0 <= t < piece.len() && piece[t] == '\n';
                            assert(s[t] == '\n');
                        }
                        if piece.contains('\r') {
                            let t = choose|t: int| 0 <= t < piece.len() && piece[t] == '\r';
                            assert(s.contains(s[t]));
                        }
                    } else {
                        assert(l[k] == lines(rest)[k - 1]);
                    }
                }
            },
            None => {
                assert(lines(s) == seq![s]);
            },
        }
    }
}

proof fn lemma_join_front(ls: Seq<Seq<char>>, sep: Seq<char>)
    requires
        ls.len() >= 2,
    ensures
        join(ls, sep) == ls[0] + sep + join(ls.drop_first(), sep),
    decreases ls.len(),
{
    let dl = ls.drop_last();
    if ls.len() == 2 {
        assert(dl[0] == ls[0]);
        assert(join(dl, sep) == ls[0]);
        assert(ls.drop_first()[0] == ls[1]);
        assert(join(ls.drop_first(), sep) == ls[1]);
    } else {
        lemma_join_front(dl, sep);
        assert(dl[0] == ls[0]);
        assert(ls.drop_first().drop_last() =~= dl.drop_first());
        assert(ls.drop_first().last() == ls.last());
        assert(join(ls, sep) == join(dl, sep) + sep + ls.last());
        assert(join(ls.drop_first(), sep) == join(dl.drop_first(), sep) + sep + ls.last());
        assert(ls[0] + sep + join(dl.drop_first(), sep) + sep + ls.last() =~= ls[0] + sep + (join(
            dl.drop_first(),
            sep,
        ) + sep + ls.last()));
    }
}

/// Joining lines that are not empty and hold no line feed or carriage
/// return, and splitting the result into lines, gives the lines back.
pub proof fn lemma_lines_of_join(ls: Seq<Seq<char>>)
    requires
        forall|k: int| 0 <= k < ls.len() ==> (#[trigger] ls[k]).len() > 0 && !ls[k].contains('\n') && !ls[k].contains('\r'),
    ensures
        lines(join(ls, seq!['\n'])) == ls,
        ls.len() > 0 ==> ls[0].is_prefix_of(join(ls, seq!['\n'])),
    decreases ls.len(),
{
    let nl = seq!['\n'];
    if ls.len() == 1 {
        lemma_find_char(ls[0], '\n');
        assert(lines(ls[0]) == seq![ls[0]]);
        assert(seq![ls[0]] =~= ls);
    } else if ls.len() >= 2 {
        let a = ls[0];
        let rest = ls.drop_first();
        assert forall|k: int| 0 <= k < rest.len() implies (#[trigger] rest[k]).len() > 0 && !rest[k].contains('\n')
            && !rest[k].contains('\r') by {
            assert(rest[k] == ls[k + 1]);
        }
        lemma_join_front(ls, nl);
        lemma_lines_of_join(rest);
        let j = join(rest, nl);
        let s = a + nl + j;
        assert(join(ls, nl) == s);
        lemma_find_char(s, '\n');
        assert(s[a.len() as int] == '\n');
        assert(s.contains('\n'));
        let k = find(s, nl)->0;
        if k < a.len() {
            assert(s[k] == a[k]);
            assert(a.contains(a[k]));
        }
        assert(k == a.len());
        assert(s.subrange(0, k) =~= a);
        assert(a.last() != '\r') by {
            assert(a.contains(a[a.len() - 1]));
        }
        assert(s.subrange(k + 1, s.len() as int) =~= j);
        assert(lines(s) == seq![a] + lines(j));
        assert(seq![a] + rest =~= ls);
        assert(s.subrange(0, a.len() as int) =~= a);
    }
}

proof fn lemma_trim_start_nonempty(s: Seq<char>)
    ensures
        trim_start(s).len() > 0 <==> exists|i: int| 0 <= i < s.len() && !is_ws(#[trigger] s[i]),
    decreases s.len(),
{
    if s.len() > 0 && is_ws(s[0]) {
        lemma_trim_start_nonempty(s.drop_first());
        if exists|i: int| 0 <= i < s.len() && !is_ws(#[trigger] s[i]) {
            let i = choose|i: int| 0 <= i < s.len() && !is_ws(#[trigger] s[i]);
            assert(s.drop_first()[i - 1] == s[i]);
        }
        if exists|i: int| 0 <= i < s.drop_first().len() && !is_ws(#[trigger] s.drop_first()[i]) {
            let i = choose|i: int| 0 <= i < s.drop_first().len() && !is_ws(#[trigger] s.drop_first()[i]);
            assert(s[i + 1] == s.drop_first()[i]);
        }
    } else if s.len() > 0 {
        assert(!is_ws(s[0]));
    }
}

proof fn lemma_trim_end_nonempty(s: Seq<char>)
    ensures
        trim_end(s).len() > 0 <==> exists|i: int| 0 <= i < s.len() && !is_ws(#[trigger] s[i]),
    decreases s.len(),
{
    if s.len() > 0 && is_ws(s.last()) {
        lemma_trim_end_nonempty(s.drop_last());
        if exists|i: int| 0 <= i < s.len() && !is_ws(#[trigger] s[i]) {
            let i = choose|i: int| 0 <= i < s.len() && !is_ws(#[trigger] s[i]);
            assert(s.drop_last()[i] == s[i]);
        }
        if exists|i: int| 0 <= i < s.drop_last().len() && !is_ws(#[trigger] s.drop_last()[i]) {
            let i = choose|i: int| 0 <= i < s.drop_last().len() && !is_ws(#[trigger] s.drop_last()[i]);
            assert(s[i] == s.drop_last()[i]);
        }
    } else if s.len() > 0 {
        assert(!is_ws(s[s.len() - 1]));
    }
}

/// A text trims to something exactly when it holds a character other than white space.
pub proof fn lemma_trim_nonempty(s: Seq<char>)
    ensures
        trim(s).len() > 0 <==> exists|i: int| 0 <= i < s.len() && !is_ws(#[trigger] s[i]),
{
    let t = trim_start(s);
    lemma_trim_start_nonempty(s);
    lemma_trim_end_nonempty(t);
    lemma_trim_start_shape(s);
    if t.len() > 0 {
        assert(!is_ws(t[0]));
    }
}

} // verus!
