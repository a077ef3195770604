//! Character-level text primitives: Unicode whitespace, trimming, splitting,
//! joining, substring search and UTF-8 widths.
//!
//! Strings are modelled by their `Seq<char>` view; the executable functions
//! work on `Vec<char>` copies of the characters.

use vstd::prelude::*;

verus! {

/// The Unicode `White_Space` property, which `char::is_whitespace` decides.
pub open spec fn is_ws(c: char) -> bool {
    let u = c as u32;
    ||| 0x09 <= u <= 0x0D
    ||| u == 0x20
    ||| u == 0x85
    ||| u == 0xA0
    ||| u == 0x1680
    ||| 0x2000 <= u <= 0x200A
    ||| u == 0x2028
    ||| u == 0x2029
    ||| u == 0x202F
    ||| u == 0x205F
    ||| u == 0x3000
}

/// Whether `c` is Unicode whitespace.
pub fn is_whitespace(c: char) -> (b: bool)
    ensures
        b == is_ws(c),
{
    let u = c as u32;
    (0x09 <= u && u <= 0x0D) || u == 0x20 || u == 0x85 || u == 0xA0 || u == 0x1680 || (0x2000
        <= u && u <= 0x200A) || u == 0x2028 || u == 0x2029 || u == 0x202F || u == 0x205F || u
        == 0x3000
}

/// The view of an optional string slice.
pub open spec fn opt_view(o: Option<&str>) -> Option<Seq<char>> {
    match o {
        Some(s) => Some(s@),
        None => None,
    }
}

/// The characters of `s`, in order.
pub fn chars_of(s: &str) -> (v: Vec<char>)
    ensures
        v@ == s@,
{
    let mut v: Vec<char> = Vec::new();
    for c in it: s.chars()
        invariant
            v@ == it.seq().take(it.index() as int),
    {
        v.push(c);
    }
    assert(v@ =~= s@);
    v
}

/// Appends one character to a string (`String::push`).
#[verifier::external_body]
fn push_char(s: &mut String, c: char)
    ensures
        final(s)@ == old(s)@.push(c),
{
    s.push(c);
}

/// A string holding the characters of `v`.
pub fn string_from(v: &[char]) -> (s: String)
    ensures
        s@ == v@,
{
    let mut s = String::new();
    let n = v.len();
    for i in 0..n
        invariant
            n == v@.len(),
            s@ == v@.take(i as int),
    {
        push_char(&mut s, v[i]);
        assert(v@.take(i + 1) =~= v@.take(i as int).push(v@[i as int]));
    }
    assert(v@.take(n as int) =~= v@);
    s
}

// ---------------------------------------------------------------------------
// Trimming

/// `s` without its trailing whitespace.
pub open spec fn trim_end(s: Seq<char>) -> Seq<char>
    decreases s.len(),
{
    if s.len() > 0 && is_ws(s.last()) {
        trim_end(s.drop_last())
    } else {
        s
    }
}

/// `s` without its leading whitespace.
pub open spec fn trim_start(s: Seq<char>) -> Seq<char>
    decreases s.len(),
{
    if s.len() > 0 && is_ws(s[0]) {
        trim_start(s.drop_first())
    } else {
        s
    }
}

/// `s` without leading and trailing whitespace (`str::trim`).
pub open spec fn trim(s: Seq<char>) -> Seq<char> {
    trim_start(trim_end(s))
}

/// `trim_end(s)` is the prefix of `s` that ends at the last non-whitespace character.
pub proof fn lemma_trim_end_prefix(s: Seq<char>)
    ensures
        trim_end(s).len() <= s.len(),
        trim_end(s) == s.take(trim_end(s).len() as int),
        trim_end(s).len() > 0 ==> !is_ws(trim_end(s).last()),
        forall|i: int| trim_end(s).len() <= i < s.len() ==> is_ws(#[trigger] s[i]),
    decreases s.len(),
{
    if s.len() > 0 && is_ws(s.last()) {
        lemma_trim_end_prefix(s.drop_last());
        assert(s.drop_last().take(trim_end(s).len() as int) =~= s.take(trim_end(s).len() as int));
        assert forall|i: int| trim_end(s).len() <= i < s.len() implies is_ws(#[trigger] s[i]) by {
            if i < s.len() - 1 {
                assert(s[i] == s.drop_last()[i]);
            }
        }
    } else {
        assert(s.take(s.len() as int) =~= s);
    }
}

/// `trim_start(s)` is the suffix of `s` that starts at the first non-whitespace character.
pub proof fn lemma_trim_start_suffix(s: Seq<char>)
    ensures
        trim_start(s).len() <= s.len(),
        trim_start(s) == s.skip(s.len() - trim_start(s).len()),
        trim_start(s).len() > 0 ==> !is_ws(trim_start(s)[0]),
        forall|i: int| 0 <= i < s.len() - trim_start(s).len() ==> is_ws(#[trigger] s[i]),
    decreases s.len(),
{
    if s.len() > 0 && is_ws(s[0]) {
        lemma_trim_start_suffix(s.drop_first());
        assert(s.drop_first().skip(s.drop_first().len() - trim_start(s).len()) =~= s.skip(
            s.len() - trim_start(s).len(),
        ));
        assert forall|i: int| 0 <= i < s.len() - trim_start(s).len() implies is_ws(
            #[trigger] s[i],
        ) by {
            if i > 0 {
                assert(s[i] == s.drop_first()[i - 1]);
            }
        }
    } else {
        assert(s.skip(0) =~= s);
    }
}

/// `trim(s)` is the subrange of `s` between its first and its last non-whitespace
/// characters.
pub proof fn lemma_trim_subrange(s: Seq<char>)
    ensures
        exists|i: int, j: int|
            0 <= i <= j <= s.len() && trim(s) == s.subrange(i, j) && (forall|k: int|
                0 <= k < i ==> is_ws(#[trigger] s[k])) && (forall|k: int|
                j <= k < s.len() ==> is_ws(#[trigger] s[k])),
        trim(s).len() > 0 ==> !is_ws(trim(s)[0]) && !is_ws(trim(s).last()),
{
    lemma_trim_end_prefix(s);
    let e = trim_end(s);
    lemma_trim_start_suffix(e);
    let j = e.len() as int;
    let i = e.len() - trim_start(e).len();
    assert(trim(s) =~= s.subrange(i, j));
    assert forall|k: int| 0 <= k < i implies is_ws(#[trigger] s[k]) by {
        assert(s[k] == e[k]);
    }
}

/// `trim` is idempotent.
pub proof fn lemma_trim_idempotent(s: Seq<char>)
    ensures
        trim(trim(s)) == trim(s),
{
    lemma_trim_subrange(s);
    let t = trim(s);
    if t.len() > 0 {
        assert(!is_ws(t.last()));
        assert(trim_end(t) == t);
        assert(trim_start(t) == t);
    } else {
        assert(trim_end(t) == t);
        assert(trim_start(t) == t);
    }
}

/// The characters of `v` with leading and trailing whitespace removed.
pub fn trim_chars(v: &[char]) -> (r: Vec<char>)
    ensures
        r@ == trim(v@),
{
    let mut j = v.len();
    assert(v@.take(j as int) =~= v@);
    while j > 0 && is_whitespace(v[j - 1])
        invariant
            j <= v@.len(),
            trim_end(v@) == trim_end(v@.take(j as int)),
        decreases j,
    {
        assert(v@.take(j as int).drop_last() =~= v@.take(j - 1));
        j = j - 1;
    }
    let mut i: usize = 0;
    while i < j && is_whitespace(v[i])
        invariant
            i <= j <= v@.len(),
            trim_end(v@) == v@.take(j as int),
            trim_start(v@.take(j as int)) == trim_start(v@.subrange(i as int, j as int)),
        decreases j - i,
    {
        assert(v@.subrange(i as int, j as int).drop_first() =~= v@.subrange(i + 1, j as int));
        i = i + 1;
    }
    assert(v@.take(j as int) =~= v@.subrange(0, j as int));
    let mut r: Vec<char> = Vec::new();
    let mut k = i;
    while k < j
        invariant
            i <= k <= j <= v@.len(),
            r@ == v@.subrange(i as int, k as int),
        decreases j - k,
    {
        r.push(v[k]);
        assert(v@.subrange(i as int, k + 1) =~= v@.subrange(i as int, k as int).push(v@[k as int]));
        k = k + 1;
    }
    r
}

/// `s` with leading and trailing whitespace removed, as a new `String`.
pub fn trim_str(s: &str) -> (r: String)
    ensures
        r@ == trim(s@),
{
    let v = chars_of(s);
    let t = trim_chars(v.as_slice());
    string_from(t.as_slice())
}


// ---------------------------------------------------------------------------
// Splitting and joining

/// The views of a sequence of character vectors.
pub open spec fn views(v: Seq<Vec<char>>) -> Seq<Seq<char>> {
    v.map_values(|x: Vec<char>| x@)
}

/// The separator test: a character of `seps`, or, when `on_ws`, any whitespace.
pub open spec fn sep_pred(seps: Seq<char>, on_ws: bool) -> spec_fn(char) -> bool {
    |c: char| seps.contains(c) || (on_ws && is_ws(c))
}

/// The pieces of `s` between separators, empty pieces included (`str::split`).
/// There is always at least one piece.
pub open spec fn split_by(s: Seq<char>, is_sep: spec_fn(char) -> bool) -> Seq<Seq<char>>
    decreases s.len(),
{
    if s.len() == 0 {
        seq![Seq::<char>::empty()]
    } else {
        let init = split_by(s.drop_last(), is_sep);
        if is_sep(s.last()) {
            init.push(Seq::<char>::empty())
        } else {
            init.update(init.len() - 1, init.last().push(s.last()))
        }
    }
}

/// The pieces of a split are never fewer than one.
pub proof fn lemma_split_nonempty(s: Seq<char>, is_sep: spec_fn(char) -> bool)
    ensures
        split_by(s, is_sep).len() >= 1,
    decreases s.len(),
{
    if s.len() > 0 {
        lemma_split_nonempty(s.drop_last(), is_sep);
    }
}

/// The non-empty members of `parts`, in order.
pub open spec fn non_empty(parts: Seq<Seq<char>>) -> Seq<Seq<char>>
    decreases parts.len(),
{
    if parts.len() == 0 {
        Seq::<Seq<char>>::empty()
    } else {
        let r = non_empty(parts.drop_last());
        if parts.last().len() > 0 {
            r.push(parts.last())
        } else {
            r
        }
    }
}

/// `parts` joined with `sep` between neighbours (`[T]::join`).
pub open spec fn join(parts: Seq<Seq<char>>, sep: Seq<char>) -> Seq<char>
    decreases parts.len(),
{
    if parts.len() == 0 {
        Seq::<char>::empty()
    } else if parts.len() == 1 {
        parts[0]
    } else {
        join(parts.drop_last(), sep) + sep + parts.last()
    }
}

/// The whitespace-separated words of `s` (`str::split_whitespace`).
pub open spec fn words(s: Seq<char>) -> Seq<Seq<char>> {
    non_empty(split_by(s, sep_pred(Seq::<char>::empty(), true)))
}

/// The words of `s` joined by single spaces.
pub open spec fn collapse_ws(s: Seq<char>) -> Seq<char> {
    join(words(s), seq![' '])
}

/// Whether `c` is one of `seps`.
pub fn contains_char(seps: &[char], c: char) -> (b: bool)
    ensures
        b == seps@.contains(c),
{
    let n = seps.len();
    for i in 0..n
        invariant
            n == seps@.len(),
            forall|k: int| 0 <= k < i ==> seps@[k] != c,
    {
        if seps[i] == c {
            return true;
        }
    }
    false
}

/// The pieces of `v` between separators, where a separator is a character of
/// `seps` or, when `on_ws`, any whitespace.
pub fn split_chars(v: &[char], seps: &[char], on_ws: bool) -> (r: Vec<Vec<char>>)
    ensures
        views(r@) == split_by(v@, sep_pred(seps@, on_ws)),
{
    let ghost p = sep_pred(seps@, on_ws);
    let mut parts: Vec<Vec<char>> = Vec::new();
    let mut cur: Vec<char> = Vec::new();
    let n = v.len();
    assert(views(parts@).push(cur@) =~= split_by(v@.take(0), p));
    for i in 0..n
        invariant
            n == v@.len(),
            p == sep_pred(seps@, on_ws),
            views(parts@).push(cur@) == split_by(v@.take(i as int), p),
    {
        let c = v[i];
        let is_sep = contains_char(seps, c) || (on_ws && is_whitespace(c));
        assert(v@.take(i + 1).drop_last() =~= v@.take(i as int));
        assert(v@.take(i + 1).last() == c);
        assert(is_sep == p(c));
        let ghost before = split_by(v@.take(i as int), p);
        if is_sep {
            let done = cur;
            parts.push(done);
            cur = Vec::new();
            assert(views(parts@).push(cur@) =~= before.push(Seq::<char>::empty()));
        } else {
            cur.push(c);
            assert(views(parts@).push(cur@) =~= before.update(
                before.len() - 1,
                before.last().push(c),
            ));
        }
    }
    assert(v@.take(n as int) =~= v@);
    parts.push(cur);
    assert(views(parts@) =~= split_by(v@, p));
    parts
}

/// A fresh vector holding the characters of `v`.
pub fn copy_chars(v: &[char]) -> (r: Vec<char>)
    ensures
        r@ == v@,
{
    let mut r: Vec<char> = Vec::new();
    let n = v.len();
    for i in 0..n
        invariant
            n == v@.len(),
            r@ == v@.take(i as int),
    {
        r.push(v[i]);
        assert(v@.take(i + 1) =~= v@.take(i as int).push(v@[i as int]));
    }
    assert(v@.take(n as int) =~= v@);
    r
}

/// The non-empty members of `parts`, in order.
pub fn keep_non_empty(parts: &Vec<Vec<char>>) -> (r: Vec<Vec<char>>)
    ensures
        views(r@) == non_empty(views(parts@)),
{
    let mut r: Vec<Vec<char>> = Vec::new();
    let n = parts.len();
    let ghost all = views(parts@);
    let mut i: usize = 0;
    while i < n
        invariant
            n == parts@.len(),
            all == views(parts@),
            i <= n,
            views(r@) == non_empty(all.take(i as int)),
        decreases n - i,
    {
        assert(all.take(i + 1).drop_last() =~= all.take(i as int));
        if parts[i].len() > 0 {
            r.push(copy_chars(parts[i].as_slice()));
            assert(views(r@) =~= non_empty(all.take(i as int)).push(all[i as int]));
        }
        i = i + 1;
    }
    assert(all.take(n as int) =~= all);
    r
}

/// `parts` joined with `sep` between neighbours.
pub fn join_chars(parts: &Vec<Vec<char>>, sep: &[char]) -> (r: Vec<char>)
    ensures
        r@ == join(views(parts@), sep@),
{
    let ghost all = views(parts@);
    let mut r: Vec<char> = Vec::new();
    let n = parts.len();
    assert(all.take(0).len() == 0);
    for i in 0..n
        invariant
            n == parts@.len(),
            all == views(parts@),
            r@ == join(all.take(i as int), sep@),
    {
        let ghost t = all.take(i + 1);
        assert(t.drop_last() =~= all.take(i as int));
        assert(t.last() == parts@[i as int]@);
        if i > 0 {
            let mut k: usize = 0;
            let ghost before = r@;
            while k < sep.len()
                invariant
                    k <= sep@.len(),
                    r@ == before + sep@.take(k as int),
                decreases sep@.len() - k,
            {
                r.push(sep[k]);
                assert(sep@.take(k + 1) =~= sep@.take(k as int).push(sep@[k as int]));
                k = k + 1;
            }
            assert(sep@.take(k as int) =~= sep@);
        }
        let ghost mid = r@;
        let part = &parts[i];
        let m = part.len();
        for k in 0..m
            invariant
                m == part@.len(),
                r@ == mid + part@.take(k as int),
        {
            r.push(part[k]);
            assert(part@.take(k + 1) =~= part@.take(k as int).push(part@[k as int]));
        }
        assert(part@.take(m as int) =~= part@);
        if i == 0 {
            assert(t.len() == 1);
            assert(r@ =~= t[0]);
        }
    }
    assert(all.take(n as int) =~= all);
    r
}

/// The words of `v` joined by single spaces.
pub fn collapse_whitespace(v: &[char]) -> (r: Vec<char>)
    ensures
        r@ == collapse_ws(v@),
{
    let no_seps: Vec<char> = Vec::new();
    let pieces = split_chars(v, no_seps.as_slice(), true);
    assert(no_seps@ =~= Seq::<char>::empty());
    let kept = keep_non_empty(&pieces);
    let mut space: Vec<char> = Vec::new();
    space.push(' ');
    assert(space@ =~= seq![' ']);
    join_chars(&kept, space.as_slice())
}

// ---------------------------------------------------------------------------
// Searching

/// `needle` occurs in `hay` at index `i`.
pub open spec fn occurs_at(hay: Seq<char>, needle: Seq<char>, i: int) -> bool {
    0 <= i && i + needle.len() <= hay.len() && hay.subrange(i, i + needle.len()) == needle
}

/// `i` is the index of the first occurrence of `needle` in `hay`.
pub open spec fn is_first_occurrence(hay: Seq<char>, needle: Seq<char>, i: int) -> bool {
    occurs_at(hay, needle, i) && forall|j: int| 0 <= j < i ==> !occurs_at(hay, needle, j)
}

/// `needle` occurs somewhere in `hay` (`str::contains`).
pub open spec fn contains_seq(hay: Seq<char>, needle: Seq<char>) -> bool {
    exists|i: int| occurs_at(hay, needle, i)
}

/// The index of the first occurrence of `needle` in `hay`, counted in characters.
pub open spec fn find(hay: Seq<char>, needle: Seq<char>) -> Option<int> {
    if exists|i: int| is_first_occurrence(hay, needle, i) {
        Some(choose|i: int| is_first_occurrence(hay, needle, i))
    } else {
        None
    }
}

/// There is at most one first occurrence.
pub proof fn lemma_first_occurrence_unique(hay: Seq<char>, needle: Seq<char>, i: int, j: int)
    requires
        is_first_occurrence(hay, needle, i),
        is_first_occurrence(hay, needle, j),
    ensures
        i == j,
{
}

/// When `needle` occurs in `hay`, `find` gives its first occurrence.
pub proof fn lemma_find_some(hay: Seq<char>, needle: Seq<char>, i: int)
    requires
        is_first_occurrence(hay, needle, i),
    ensures
        find(hay, needle) == Some(i),
{
    let k = choose|k: int| is_first_occurrence(hay, needle, k);
    lemma_first_occurrence_unique(hay, needle, i, k);
}

/// Whether `needle` occurs in `hay` at index `i`.
pub fn matches_at(hay: &[char], needle: &[char], i: usize) -> (b: bool)
    requires
        i <= hay@.len(),
    ensures
        b == occurs_at(hay@, needle@, i as int),
{
    let n = needle.len();
    if n > hay.len() - i {
        return false;
    }
    for k in 0..n
        invariant
            n == needle@.len(),
            i + n <= hay@.len(),
            hay@.len() == hay.len(),
            forall|q: int| 0 <= q < k ==> hay@[i + q] == needle@[q],
    {
        if hay[i + k] != needle[k] {
            assert(hay@.subrange(i as int, i + n)[k as int] != needle@[k as int]);
            return false;
        }
    }
    assert(hay@.subrange(i as int, i + n) =~= needle@);
    true
}

/// The first occurrence of `needle` in `hay`, counted in characters (`str::find`).
pub fn find_chars(hay: &[char], needle: &[char]) -> (r: Option<usize>)
    ensures
        r matches Some(i) ==> find(hay@, needle@) == Some(i as int) && is_first_occurrence(
            hay@,
            needle@,
            i as int,
        ),
        r is None ==> find(hay@, needle@) is None,
        r is Some <==> contains_seq(hay@, needle@),
{
    let m = hay.len();
    let mut i: usize = 0;
    loop
        invariant
            m == hay@.len(),
            i <= m,
            forall|j: int| 0 <= j < i ==> !occurs_at(hay@, needle@, j),
        decreases m - i,
    {
        if matches_at(hay, needle, i) {
            proof {
                lemma_find_some(hay@, needle@, i as int);
            }
            return Some(i);
        }
        if i == m {
            assert(forall|j: int| !occurs_at(hay@, needle@, j));
            return None;
        }
        i = i + 1;
    }
}

/// `i` is the index of the last occurrence of `c` in `s`.
pub open spec fn is_last_index(s: Seq<char>, c: char, i: int) -> bool {
    0 <= i < s.len() && s[i] == c && forall|j: int| i < j < s.len() ==> s[j] != c
}

/// The index of the last occurrence of `c` in `s`, counted in characters.
pub open spec fn last_index(s: Seq<char>, c: char) -> Option<int> {
    if exists|i: int| is_last_index(s, c, i) {
        Some(choose|i: int| is_last_index(s, c, i))
    } else {
        None
    }
}

/// The last occurrence of `c` in `v` (`str::rfind`, counted in characters).
pub fn rfind_char(v: &[char], c: char) -> (r: Option<usize>)
    ensures
        r matches Some(i) ==> last_index(v@, c) == Some(i as int) && is_last_index(
            v@,
            c,
            i as int,
        ),
        r is None ==> last_index(v@, c) is None && !v@.contains(c),
{
    let mut k = v.len();
    while k > 0
        invariant
            k <= v@.len(),
            forall|j: int| k <= j < v@.len() ==> v@[j] != c,
        decreases k,
    {
        if v[k - 1] == c {
            let i = k - 1;
            assert(is_last_index(v@, c, i as int));
            proof {
                let q = choose|q: int| is_last_index(v@, c, q);
                assert(q == i);
            }
            return Some(i);
        }
        k = k - 1;
    }
    None
}

// ---------------------------------------------------------------------------
// UTF-8 widths

/// The number of bytes `c` takes in UTF-8 (`char::len_utf8`).
pub open spec fn utf8_width(c: char) -> nat {
    let u = c as u32;
    if u < 0x80 {
        1
    } else if u < 0x800 {
        2
    } else if u < 0x10000 {
        3
    } else {
        4
    }
}

/// The number of bytes `s` takes in UTF-8 (`str::len`).
pub open spec fn byte_len(s: Seq<char>) -> nat
    decreases s.len(),
{
    if s.len() == 0 {
        0
    } else {
        byte_len(s.drop_last()) + utf8_width(s.last())
    }
}

/// Byte offset `b` lies on a character boundary of `s` (`str::is_char_boundary`).
pub open spec fn is_boundary(s: Seq<char>, b: int) -> bool {
    exists|i: int| 0 <= i <= s.len() && byte_len(s.take(i)) == b
}

/// One more character adds its width.
pub proof fn lemma_byte_len_step(s: Seq<char>, i: int)
    requires
        0 <= i < s.len(),
    ensures
        byte_len(s.take(i + 1)) == byte_len(s.take(i)) + utf8_width(s[i]),
{
    assert(s.take(i + 1).drop_last() =~= s.take(i));
}

/// Longer prefixes take strictly more bytes, and no more than four per character.
pub proof fn lemma_byte_len_mono(s: Seq<char>, i: int, j: int)
    requires
        0 <= i <= j <= s.len(),
    ensures
        byte_len(s.take(i)) + (j - i) <= byte_len(s.take(j)),
        byte_len(s.take(j)) <= byte_len(s.take(i)) + 4 * (j - i),
    decreases j - i,
{
    if i < j {
        lemma_byte_len_mono(s, i, j - 1);
        lemma_byte_len_step(s, j - 1);
    }
}

/// The UTF-8 width of `c`.
pub fn char_width(c: char) -> (w: u128)
    ensures
        w == utf8_width(c),
{
    let u = c as u32;
    if u < 0x80 {
        1
    } else if u < 0x800 {
        2
    } else if u < 0x10000 {
        3
    } else {
        4
    }
}

/// The number of bytes of the first `k` characters of `v`.
pub fn bytes_before(v: &[char], k: usize) -> (b: u128)
    requires
        k <= v@.len(),
    ensures
        b == byte_len(v@.take(k as int)),
{
    let mut acc: u128 = 0;
    assert(v@.take(0).len() == 0);
    for i in 0..k
        invariant
            k <= v@.len(),
            acc == byte_len(v@.take(i as int)),
            acc <= 4 * i,
    {
        proof {
            lemma_byte_len_step(v@, i as int);
        }
        acc = acc + char_width(v[i]);
    }
    acc
}

/// The character index at which the byte offset `b` falls, if it falls on a
/// character boundary.
pub fn index_at_byte(v: &[char], b: u128) -> (r: Option<usize>)
    ensures
        r matches Some(i) ==> i <= v@.len() && byte_len(v@.take(i as int)) == b,
        r is None ==> !is_boundary(v@, b as int),
{
    let n = v.len();
    let mut i: usize = 0;
    let mut acc: u128 = 0;
    assert(v@.take(0).len() == 0);
    loop
        invariant
            n == v@.len(),
            i <= n,
            acc == byte_len(v@.take(i as int)),
            acc <= 4 * i,
            forall|j: int| 0 <= j < i ==> byte_len(#[trigger] v@.take(j)) < b,
        decreases n - i,
    {
        if acc == b {
            return Some(i);
        }
        if acc > b || i == n {
            proof {
                assert forall|j: int| 0 <= j <= v@.len() implies byte_len(#[trigger] v@.take(j))
                    != b by {
                    if j >= i {
                        lemma_byte_len_mono(v@, i as int, j);
                    }
                }
            }
            return None;
        }
        proof {
            lemma_byte_len_step(v@, i as int);
        }
        acc = acc + char_width(v[i]);
        i = i + 1;
    }
}

/// Each of `parts` trimmed.
pub open spec fn trim_all(parts: Seq<Seq<char>>) -> Seq<Seq<char>> {
    parts.map_values(|p: Seq<char>| trim(p))
}

/// Each of `parts` trimmed.
pub fn trim_each(parts: &Vec<Vec<char>>) -> (r: Vec<Vec<char>>)
    ensures
        views(r@) == trim_all(views(parts@)),
{
    let ghost pv = views(parts@);
    let mut trimmed: Vec<Vec<char>> = Vec::new();
    let n = parts.len();
    assert(views(trimmed@) =~= trim_all(pv).take(0));
    for i in 0..n
        invariant
            n == parts@.len(),
            pv == views(parts@),
            views(trimmed@) == trim_all(pv).take(i as int),
            trimmed@.len() == i,
    {
        let t = trim_chars(parts[i].as_slice());
        assert(pv[i as int] == parts@[i as int]@);
        assert(trim_all(pv)[i as int] == trim(pv[i as int]));
        let ghost old_t = trimmed@;
        trimmed.push(t);
        assert(trimmed@ == old_t.push(t));
        assert forall|j: int| 0 <= j < i implies views(trimmed@)[j] == trim_all(pv).take(i + 1)[j] by {
            assert(views(old_t)[j] == trim_all(pv).take(i as int)[j]);
        }
        assert(views(trimmed@) =~= trim_all(pv).take(i + 1));
    }
    assert(trim_all(pv).take(n as int) =~= trim_all(pv));
    trimmed
}

/// The view of an optional string.
pub open spec fn opt_string_view(o: Option<String>) -> Option<Seq<char>> {
    match o {
        Some(s) => Some(s@),
        None => None,
    }
}

/// The views of a sequence of strings.
pub open spec fn string_views(v: Seq<String>) -> Seq<Seq<char>> {
    v.map_values(|x: String| x@)
}

/// One string for each character vector of `parts`.
pub fn strings_from(parts: &Vec<Vec<char>>) -> (r: Vec<String>)
    ensures
        string_views(r@) == views(parts@),
{
    let ghost pv = views(parts@);
    let mut out: Vec<String> = Vec::new();
    let n = parts.len();
    assert(string_views(out@) =~= pv.take(0));
    for i in 0..n
        invariant
            n == parts@.len(),
            pv == views(parts@),
            string_views(out@) == pv.take(i as int),
            out@.len() == i,
    {
        let s = string_from(parts[i].as_slice());
        let ghost old_out = out@;
        out.push(s);
        assert forall|j: int| 0 <= j < i implies string_views(out@)[j] == pv.take(i + 1)[j] by {
            assert(string_views(old_out)[j] == pv.take(i as int)[j]);
        }
        assert(string_views(out@) =~= pv.take(i + 1));
    }
    assert(pv.take(n as int) =~= pv);
    out
}

/// Splitting a sequence with no separator gives the sequence itself.
pub proof fn lemma_split_no_sep(s: Seq<char>, is_sep: spec_fn(char) -> bool)
    requires
        forall|i: int| 0 <= i < s.len() ==> !is_sep(#[trigger] s[i]),
    ensures
        split_by(s, is_sep) == seq![s],
    decreases s.len(),
{
    if s.len() > 0 {
        assert forall|i: int| 0 <= i < s.drop_last().len() implies !is_sep(
            #[trigger] s.drop_last()[i],
        ) by {
            assert(s.drop_last()[i] == s[i]);
        }
        lemma_split_no_sep(s.drop_last(), is_sep);
        assert(s.drop_last().push(s.last()) =~= s);
        assert(split_by(s, is_sep) =~= seq![s]);
    } else {
        assert(s =~= Seq::<char>::empty());
    }
}

/// Splitting at a separator splits each side on its own.
pub proof fn lemma_split_concat(a: Seq<char>, c: char, b: Seq<char>, is_sep: spec_fn(char) -> bool)
    requires
        is_sep(c),
    ensures
        split_by(a + seq![c] + b, is_sep) == split_by(a, is_sep) + split_by(b, is_sep),
    decreases b.len(),
{
    let s = a + seq![c] + b;
    lemma_split_nonempty(a, is_sep);
    if b.len() == 0 {
        assert(s.drop_last() =~= a);
        assert(s.last() == c);
        assert(split_by(b, is_sep) =~= seq![Seq::<char>::empty()]);
        assert(split_by(s, is_sep) =~= split_by(a, is_sep) + split_by(b, is_sep));
    } else {
        lemma_split_concat(a, c, b.drop_last(), is_sep);
        lemma_split_nonempty(b.drop_last(), is_sep);
        assert(s.drop_last() =~= a + seq![c] + b.drop_last());
        assert(s.last() == b.last());
        let x = split_by(a, is_sep);
        let y = split_by(b.drop_last(), is_sep);
        if is_sep(b.last()) {
            assert((x + y).push(Seq::<char>::empty()) =~= x + y.push(Seq::<char>::empty()));
        } else {
            assert((x + y).update((x + y).len() - 1, (x + y).last().push(b.last())) =~= x
                + y.update(y.len() - 1, y.last().push(b.last())));
        }
    }
}

// ---------------------------------------------------------------------------
// Facts about splitting and joining

/// No piece of a split holds a separator.
pub proof fn lemma_split_pieces(s: Seq<char>, is_sep: spec_fn(char) -> bool)
    ensures
        forall|k: int, i: int|
            0 <= k < split_by(s, is_sep).len() && 0 <= i < split_by(s, is_sep)[k].len() ==> !is_sep(
                #[trigger] split_by(s, is_sep)[k][i],
            ),
    decreases s.len(),
{
    if s.len() > 0 {
        lemma_split_pieces(s.drop_last(), is_sep);
        lemma_split_nonempty(s.drop_last(), is_sep);
        let init = split_by(s.drop_last(), is_sep);
        let r = split_by(s, is_sep);
        assert forall|k: int, i: int| 0 <= k < r.len() && 0 <= i < r[k].len() implies !is_sep(
            #[trigger] r[k][i],
        ) by {
            if !is_sep(s.last()) && k == init.len() - 1 {
                if i < init[k].len() {
                    assert(r[k][i] == init[k][i]);
                }
            } else if k < init.len() {
                assert(r[k][i] == init[k][i]);
            }
        }
    }
}

/// The `k`-th of `pieces` is `s` from `i` to `j`, starts at the beginning of
/// `s` or right after a separator, and ends right before a separator, or, for
/// the last of `pieces`, at the end of `s`.
pub open spec fn piece_span(
    s: Seq<char>,
    is_sep: spec_fn(char) -> bool,
    pieces: Seq<Seq<char>>,
    k: int,
    i: int,
    j: int,
) -> bool {
    &&& 0 <= i <= j <= s.len()
    &&& pieces[k] == s.subrange(i, j)
    &&& i == 0 || is_sep(s[i - 1])
    &&& if k == pieces.len() - 1 {
        j == s.len()
    } else {
        j < s.len() && is_sep(s[j])
    }
}

/// Each piece of a split is a stretch of `s` that begins at its start or after
/// a separator and ends before a separator, the last one at its end: the
/// `k`-th piece spans the returned indices.
pub proof fn lemma_split_span(s: Seq<char>, is_sep: spec_fn(char) -> bool, k: int) -> (ij: (
    int,
    int,
))
    requires
        0 <= k < split_by(s, is_sep).len(),
    ensures
        piece_span(s, is_sep, split_by(s, is_sep), k, ij.0, ij.1),
    decreases s.len(),
{
    let r = split_by(s, is_sep);
    if s.len() == 0 {
        assert(r[k] =~= s.subrange(0, 0));
        (0, 0)
    } else {
        let t = s.drop_last();
        let c = s.last();
        lemma_split_nonempty(t, is_sep);
        let init = split_by(t, is_sep);
        if k < init.len() {
            let (i, j) = lemma_split_span(t, is_sep, k);
            assert(t.subrange(i, j) =~= s.subrange(i, j));
            if i > 0 {
                assert(t[i - 1] == s[i - 1]);
            }
            if j < t.len() {
                assert(t[j] == s[j]);
            }
            if is_sep(c) {
                assert(r[k] == init[k]);
                (i, j)
            } else if k < init.len() - 1 {
                assert(r[k] == init[k]);
                (i, j)
            } else {
                assert(r[k] == init[k].push(c));
                assert(r[k] =~= s.subrange(i, s.len() as int));
                (i, s.len() as int)
            }
        } else {
            assert(r[k] =~= s.subrange(s.len() as int, s.len() as int));
            (s.len() as int, s.len() as int)
        }
    }
}

/// Every member of `non_empty(parts)` is a non-empty member of `parts`.
pub proof fn lemma_non_empty_members(parts: Seq<Seq<char>>)
    ensures
        forall|k: int|
            0 <= k < non_empty(parts).len() ==> (#[trigger] non_empty(parts)[k]).len() > 0
                && parts.contains(non_empty(parts)[k]),
    decreases parts.len(),
{
    if parts.len() > 0 {
        let p = parts.drop_last();
        lemma_non_empty_members(p);
        let r = non_empty(parts);
        assert forall|k: int| 0 <= k < r.len() implies (#[trigger] r[k]).len() > 0
            && parts.contains(r[k]) by {
            if k < non_empty(p).len() {
                assert(r[k] == non_empty(p)[k]);
                let j = choose|j: int| 0 <= j < p.len() && p[j] == r[k];
                assert(parts[j] == r[k]);
            } else {
                assert(parts[parts.len() - 1] == r[k]);
            }
        }
    }
}

/// Keeping the non-empty members of non-empty parts keeps them all.
pub proof fn lemma_non_empty_all(parts: Seq<Seq<char>>)
    requires
        forall|k: int| 0 <= k < parts.len() ==> (#[trigger] parts[k]).len() > 0,
    ensures
        non_empty(parts) == parts,
    decreases parts.len(),
{
    if parts.len() > 0 {
        lemma_non_empty_all(parts.drop_last());
        assert(parts.drop_last().push(parts.last()) =~= parts);
    }
}

/// Splitting parts joined by a separator gives the parts back, when they hold
/// no separator.
pub proof fn lemma_split_join(parts: Seq<Seq<char>>, c: char, is_sep: spec_fn(char) -> bool)
    requires
        parts.len() >= 1,
        is_sep(c),
        forall|k: int, i: int|
            0 <= k < parts.len() && 0 <= i < parts[k].len() ==> !is_sep(#[trigger] parts[k][i]),
    ensures
        split_by(join(parts, seq![c]), is_sep) == parts,
    decreases parts.len(),
{
    let last = parts.last();
    assert forall|i: int| 0 <= i < last.len() implies !is_sep(#[trigger] last[i]) by {
        assert(parts[parts.len() - 1][i] == last[i]);
    }
    lemma_split_no_sep(last, is_sep);
    if parts.len() == 1 {
        assert(seq![parts[0]] =~= parts);
    } else {
        let init = parts.drop_last();
        assert forall|k: int, i: int| 0 <= k < init.len() && 0 <= i < init[k].len() implies !is_sep(
            #[trigger] init[k][i],
        ) by {
            assert(init[k] == parts[k]);
        }
        lemma_split_join(init, c, is_sep);
        lemma_split_concat(join(init, seq![c]), c, last, is_sep);
        assert(join(init, seq![c]) + seq![c] + last == join(parts, seq![c]));
        assert(init + seq![last] =~= parts);
    }
}

/// Words are non-empty and hold no whitespace.
pub proof fn lemma_words_clean(s: Seq<char>)
    ensures
        forall|k: int| 0 <= k < words(s).len() ==> (#[trigger] words(s)[k]).len() > 0,
        forall|k: int, i: int|
            0 <= k < words(s).len() && 0 <= i < words(s)[k].len() ==> !is_ws(
                #[trigger] words(s)[k][i],
            ),
{
    let p = sep_pred(Seq::<char>::empty(), true);
    let pieces = split_by(s, p);
    lemma_split_pieces(s, p);
    lemma_non_empty_members(pieces);
    let w = words(s);
    assert forall|k: int, i: int| 0 <= k < w.len() && 0 <= i < w[k].len() implies !is_ws(
        #[trigger] w[k][i],
    ) by {
        let j = choose|j: int| 0 <= j < pieces.len() && pieces[j] == w[k];
        assert(!p(pieces[j][i]));
    }
}

/// Collapsing whitespace twice gives what collapsing it once gives: the
/// result has no leading, trailing or repeated whitespace.
pub proof fn lemma_collapse_idempotent(s: Seq<char>)
    ensures
        collapse_ws(collapse_ws(s)) == collapse_ws(s),
{
    let w = words(s);
    let p = sep_pred(Seq::<char>::empty(), true);
    lemma_words_clean(s);
    if w.len() == 0 {
        assert(collapse_ws(s) == Seq::<char>::empty());
        assert(split_by(Seq::<char>::empty(), p) == seq![Seq::<char>::empty()]);
        let x = seq![Seq::<char>::empty()];
        assert(x.last().len() == 0);
        assert(x.drop_last() =~= Seq::<Seq<char>>::empty());
        assert(non_empty(x.drop_last()).len() == 0);
        assert(non_empty(x).len() == 0);
    } else {
        assert(p(' ')) by {
            assert(is_ws(' '));
        }
        assert forall|k: int, i: int| 0 <= k < w.len() && 0 <= i < w[k].len() implies !p(
            #[trigger] w[k][i],
        ) by {
            assert(!is_ws(w[k][i]));
            assert(!Seq::<char>::empty().contains(w[k][i]));
        }
        lemma_split_join(w, ' ', p);
        lemma_non_empty_all(w);
        assert(words(collapse_ws(s)) == w);
    }
}

/// The total number of characters of `parts`.
pub open spec fn total_len(parts: Seq<Seq<char>>) -> nat
    decreases parts.len(),
{
    if parts.len() == 0 {
        0
    } else {
        total_len(parts.drop_last()) + parts.last().len()
    }
}

/// Splitting drops exactly one character per boundary between pieces.
proof fn lemma_split_len(s: Seq<char>, is_sep: spec_fn(char) -> bool)
    ensures
        total_len(split_by(s, is_sep)) + split_by(s, is_sep).len() == s.len() + 1,
    decreases s.len(),
{
    if s.len() > 0 {
        lemma_split_len(s.drop_last(), is_sep);
        lemma_split_nonempty(s.drop_last(), is_sep);
        let init = split_by(s.drop_last(), is_sep);
        assert(total_len(init) == total_len(init.drop_last()) + init.last().len());
        if is_sep(s.last()) {
            let r = init.push(Seq::<char>::empty());
            assert(r.drop_last() =~= init);
            assert(total_len(r) == total_len(init));
        } else {
            let r = init.update(init.len() - 1, init.last().push(s.last()));
            assert(r.drop_last() =~= init.drop_last());
            assert(total_len(r) == total_len(r.drop_last()) + r.last().len());
        }
    } else {
        let r = split_by(s, is_sep);
        assert(r.drop_last() =~= Seq::<Seq<char>>::empty());
        assert(total_len(r) == total_len(r.drop_last()) + r.last().len());
    }
}

/// Leaving out empty parts keeps the characters and drops parts.
proof fn lemma_non_empty_len(parts: Seq<Seq<char>>)
    ensures
        total_len(non_empty(parts)) == total_len(parts),
        non_empty(parts).len() <= parts.len(),
    decreases parts.len(),
{
    if parts.len() > 0 {
        lemma_non_empty_len(parts.drop_last());
        let r = non_empty(parts.drop_last());
        if parts.last().len() > 0 {
            assert(r.push(parts.last()).drop_last() =~= r);
        }
    }
}

/// Joining adds one separator between neighbours.
proof fn lemma_join_len(parts: Seq<Seq<char>>, sep: Seq<char>)
    ensures
        parts.len() > 0 ==> join(parts, sep).len() == total_len(parts) + (parts.len() - 1)
            * sep.len(),
        parts.len() == 0 ==> join(parts, sep).len() == 0,
    decreases parts.len(),
{
    if parts.len() > 1 {
        lemma_join_len(parts.drop_last(), sep);
        let n = parts.len() as int;
        let l = sep.len() as int;
        assert((n - 1) * l == (n - 2) * l + l) by (nonlinear_arith);
        assert(total_len(parts) == total_len(parts.drop_last()) + parts.last().len());
    } else if parts.len() == 1 {
        assert(parts.drop_last().len() == 0);
        assert(total_len(parts) == total_len(parts.drop_last()) + parts.last().len());
        let l = sep.len() as int;
        assert(0 * l == 0) by (nonlinear_arith);
    }
}

/// Collapsing whitespace never lengthens a string.
pub proof fn lemma_collapse_shorter(s: Seq<char>)
    ensures
        collapse_ws(s).len() <= s.len(),
{
    let p = sep_pred(Seq::<char>::empty(), true);
    lemma_split_len(s, p);
    lemma_non_empty_len(split_by(s, p));
    lemma_join_len(words(s), seq![' ']);
    assert(seq![' '].len() == 1);
}

/// Every whitespace character of `r` is a space, no two whitespace
/// characters are neighbours, and neither end is whitespace.
pub open spec fn is_collapsed(r: Seq<char>) -> bool {
    &&& forall|i: int| 0 <= i < r.len() && is_ws(#[trigger] r[i]) ==> r[i] == ' '
    &&& forall|i: int| 0 <= i < r.len() - 1 ==> !(is_ws(#[trigger] r[i]) && is_ws(r[i + 1]))
    &&& r.len() > 0 ==> !is_ws(r[0]) && !is_ws(r.last())
}

/// Non-empty parts without whitespace, joined by single spaces, are collapsed.
proof fn lemma_join_words_collapsed(parts: Seq<Seq<char>>)
    requires
        forall|k: int| 0 <= k < parts.len() ==> (#[trigger] parts[k]).len() > 0,
        forall|k: int, i: int|
            0 <= k < parts.len() && 0 <= i < parts[k].len() ==> !is_ws(#[trigger] parts[k][i]),
    ensures
        is_collapsed(join(parts, seq![' '])),
        parts.len() > 0 ==> join(parts, seq![' ']).len() > 0,
    decreases parts.len(),
{
    if parts.len() == 1 {
        let w = parts[0];
        assert forall|i: int| 0 <= i < w.len() implies !is_ws(#[trigger] w[i]) by {
            assert(parts[0][i] == w[i]);
        }
    } else if parts.len() > 1 {
        let init = parts.drop_last();
        let last = parts.last();
        assert forall|k: int, i: int| 0 <= k < init.len() && 0 <= i < init[k].len() implies !is_ws(
            #[trigger] init[k][i],
        ) by {
            assert(init[k] == parts[k]);
        }
        assert forall|k: int| 0 <= k < init.len() implies (#[trigger] init[k]).len() > 0 by {
            assert(init[k] == parts[k]);
        }
        lemma_join_words_collapsed(init);
        let j = join(init, seq![' ']);
        let r = join(parts, seq![' ']);
        assert(r == j + seq![' '] + last);
        assert(last.len() > 0) by {
            assert(parts[parts.len() - 1] == last);
        }
        assert forall|i: int| 0 <= i < last.len() implies !is_ws(#[trigger] last[i]) by {
            assert(parts[parts.len() - 1][i] == last[i]);
        }
        assert(is_ws(' '));
        assert forall|i: int| 0 <= i < r.len() && is_ws(#[trigger] r[i]) implies r[i] == ' ' by {
            if i < j.len() {
                assert(r[i] == j[i]);
            } else if i > j.len() {
                assert(r[i] == last[i - j.len() - 1]);
            }
        }
        assert forall|i: int| 0 <= i < r.len() - 1 implies !(is_ws(#[trigger] r[i]) && is_ws(
            r[i + 1],
        )) by {
            if i + 1 < j.len() {
                assert(r[i] == j[i] && r[i + 1] == j[i + 1]);
            } else if i + 1 == j.len() {
                assert(r[i] == j.last());
            } else if i == j.len() {
                assert(r[i + 1] == last[0]);
            } else {
                assert(r[i] == last[i - j.len() - 1]);
            }
        }
        assert(r[0] == j[0]);
        assert(r.last() == last.last());
    }
}

/// The number of bytes `s` and `t` take together.
pub proof fn lemma_byte_len_concat(a: Seq<char>, b: Seq<char>)
    ensures
        byte_len(a + b) == byte_len(a) + byte_len(b),
    decreases b.len(),
{
    if b.len() == 0 {
        assert(a + b =~= a);
    } else {
        lemma_byte_len_concat(a, b.drop_last());
        assert((a + b).drop_last() =~= a + b.drop_last());
        assert((a + b).last() == b.last());
    }
}

/// The total number of bytes of `parts`.
pub open spec fn total_bytes(parts: Seq<Seq<char>>) -> nat
    decreases parts.len(),
{
    if parts.len() == 0 {
        0
    } else {
        total_bytes(parts.drop_last()) + byte_len(parts.last())
    }
}

/// Splitting drops at least one byte per boundary between pieces.
proof fn lemma_split_bytes(s: Seq<char>, is_sep: spec_fn(char) -> bool)
    ensures
        total_bytes(split_by(s, is_sep)) + split_by(s, is_sep).len() <= byte_len(s) + 1,
    decreases s.len(),
{
    let r = split_by(s, is_sep);
    if s.len() > 0 {
        lemma_split_bytes(s.drop_last(), is_sep);
        lemma_split_nonempty(s.drop_last(), is_sep);
        let init = split_by(s.drop_last(), is_sep);
        assert(total_bytes(init) == total_bytes(init.drop_last()) + byte_len(init.last()));
        if is_sep(s.last()) {
            assert(r.drop_last() =~= init);
            assert(total_bytes(r) == total_bytes(init) + byte_len(r.last()));
            assert(byte_len(r.last()) == 0);
        } else {
            assert(r.drop_last() =~= init.drop_last());
            assert(total_bytes(r) == total_bytes(r.drop_last()) + byte_len(r.last()));
            let nl = init.last().push(s.last());
            assert(nl.drop_last() =~= init.last());
            assert(byte_len(nl) == byte_len(init.last()) + utf8_width(s.last()));
        }
    } else {
        assert(r.drop_last() =~= Seq::<Seq<char>>::empty());
        assert(total_bytes(r) == total_bytes(r.drop_last()) + byte_len(r.last()));
    }
}

/// Leaving out empty parts keeps the bytes.
proof fn lemma_non_empty_bytes(parts: Seq<Seq<char>>)
    ensures
        total_bytes(non_empty(parts)) == total_bytes(parts),
    decreases parts.len(),
{
    if parts.len() > 0 {
        lemma_non_empty_bytes(parts.drop_last());
        let r = non_empty(parts.drop_last());
        if parts.last().len() > 0 {
            assert(r.push(parts.last()).drop_last() =~= r);
        } else {
            assert(byte_len(parts.last()) == 0);
        }
    }
}

/// Joining by single spaces adds one byte between neighbours.
proof fn lemma_join_bytes(parts: Seq<Seq<char>>)
    ensures
        parts.len() > 0 ==> byte_len(join(parts, seq![' '])) == total_bytes(parts) + parts.len()
            - 1,
        parts.len() == 0 ==> byte_len(join(parts, seq![' '])) == 0,
    decreases parts.len(),
{
    if parts.len() > 1 {
        lemma_join_bytes(parts.drop_last());
        let j = join(parts.drop_last(), seq![' ']);
        lemma_byte_len_concat(j, seq![' ']);
        lemma_byte_len_concat(j + seq![' '], parts.last());
        let sp = seq![' '];
        assert(sp.drop_last() =~= Seq::<char>::empty());
        assert(sp.last() == ' ');
        assert((' ' as u32) == 0x20);
        assert(utf8_width(' ') == 1);
        assert(byte_len(sp.drop_last()) == 0);
        assert(byte_len(sp) == 1);
        assert(total_bytes(parts) == total_bytes(parts.drop_last()) + byte_len(parts.last()));
    } else if parts.len() == 1 {
        assert(parts.drop_last().len() == 0);
        assert(total_bytes(parts) == total_bytes(parts.drop_last()) + byte_len(parts.last()));
    }
}

/// Collapsing whitespace leaves single spaces between words and none at the
/// ends, and never adds bytes.
pub proof fn lemma_collapse_shape(s: Seq<char>)
    ensures
        is_collapsed(collapse_ws(s)),
        trim(collapse_ws(s)) == collapse_ws(s),
        byte_len(collapse_ws(s)) <= byte_len(s),
{
    let w = words(s);
    let r = collapse_ws(s);
    lemma_words_clean(s);
    lemma_join_words_collapsed(w);
    assert(trim_end(r) == r);
    assert(trim_start(r) == r);
    let p = sep_pred(Seq::<char>::empty(), true);
    lemma_split_bytes(s, p);
    lemma_non_empty_bytes(split_by(s, p));
    lemma_non_empty_len(split_by(s, p));
    lemma_join_bytes(w);
}

/// The pieces of a split occur in the split sequence; the last is its suffix.
pub proof fn lemma_split_substrings(s: Seq<char>, is_sep: spec_fn(char) -> bool)
    ensures
        forall|k: int|
            0 <= k < split_by(s, is_sep).len() ==> contains_seq(s, #[trigger] split_by(s, is_sep)[k]),
        split_by(s, is_sep).last() == s.skip(s.len() - split_by(s, is_sep).last().len()),
    decreases s.len(),
{
    let r = split_by(s, is_sep);
    if s.len() == 0 {
        assert(s.subrange(0, 0) =~= r[0]);
        assert(occurs_at(s, r[0], 0));
        assert(s.skip(0) =~= r.last());
    } else {
        let d = s.drop_last();
        lemma_split_substrings(d, is_sep);
        lemma_split_nonempty(d, is_sep);
        let init = split_by(d, is_sep);
        assert forall|k: int| 0 <= k < init.len() - 1 implies contains_seq(s, #[trigger] r[k]) by {
            assert(r[k] == init[k]);
            assert(contains_seq(d, init[k]));
            let o = choose|o: int| occurs_at(d, init[k], o);
            assert(s.subrange(o, o + init[k].len()) =~= d.subrange(o, o + init[k].len()));
            assert(occurs_at(s, r[k], o));
        }
        let l = init.last();
        let n = l.len();
        if is_sep(s.last()) {
            assert(contains_seq(s, r[init.len() - 1])) by {
                assert(r[init.len() - 1] == l);
                assert(s.subrange(d.len() - n, d.len() as int) =~= d.skip(d.len() - n));
                assert(occurs_at(s, r[init.len() - 1], d.len() - n));
            }
            assert(s.subrange(s.len() as int, s.len() as int) =~= r.last());
            assert(occurs_at(s, r.last(), s.len() as int));
            assert(s.skip(s.len() - 0) =~= r.last());
        } else {
            assert(r.last() == l.push(s.last()));
            assert(s.skip(s.len() - (n + 1)) =~= l.push(s.last()));
            assert(s.subrange(s.len() - (n + 1), s.len() as int) =~= r.last());
            assert(occurs_at(s, r.last(), s.len() - (n + 1)));
        }
    }
}

/// No non-empty parts are left exactly when every part is empty.
pub proof fn lemma_non_empty_none(parts: Seq<Seq<char>>)
    ensures
        non_empty(parts).len() == 0 <==> forall|k: int|
            0 <= k < parts.len() ==> (#[trigger] parts[k]).len() == 0,
    decreases parts.len(),
{
    if parts.len() > 0 {
        lemma_non_empty_none(parts.drop_last());
        if non_empty(parts).len() == 0 {
            assert forall|k: int| 0 <= k < parts.len() implies (#[trigger] parts[k]).len() == 0 by {
                if k < parts.len() - 1 {
                    assert(parts[k] == parts.drop_last()[k]);
                }
            }
        }
        if forall|k: int| 0 <= k < parts.len() ==> (#[trigger] parts[k]).len() == 0 {
            assert(parts[parts.len() - 1].len() == 0);
            assert forall|k: int| 0 <= k < parts.drop_last().len() implies (
            #[trigger] parts.drop_last()[k]).len() == 0 by {
                assert(parts.drop_last()[k] == parts[k]);
            }
        }
    }
}

} // verus!
