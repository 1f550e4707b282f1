//! Character-level text utilities shared by the other modules.
//!
//! Text is handled as `Vec<char>` in executable code and as `Seq<char>` in
//! specifications; `&str` and `String` appear only at the edges.
use vstd::prelude::*;

verus! {

// ---------------------------------------------------------------------------
// Character classes
// ---------------------------------------------------------------------------

/// The Unicode `White_Space` property, which `char::is_whitespace` and
/// `str::trim` use.
pub open spec fn is_ws(c: char) -> bool {
    let u = c as u32;
    (0x9 <= u && u <= 0xd) || u == 0x20 || u == 0x85 || u == 0xa0 || u == 0x1680
        || (0x2000 <= u && u <= 0x200a) || u == 0x2028 || u == 0x2029 || u == 0x202f
        || u == 0x205f || u == 0x3000
}

pub fn is_whitespace(c: char) -> (b: bool)
    ensures
        b == is_ws(c),
{
    let u = c as u32;
    (0x9 <= u && u <= 0xd) || u == 0x20 || u == 0x85 || u == 0xa0 || u == 0x1680
        || (0x2000 <= u && u <= 0x200a) || u == 0x2028 || u == 0x2029 || u == 0x202f
        || u == 0x205f || u == 0x3000
}

/// ASCII letters `A-Z` and `a-z`.
pub open spec fn is_ascii_alpha(c: char) -> bool {
    ('a' <= c && c <= 'z') || ('A' <= c && c <= 'Z')
}

pub fn ascii_alpha(c: char) -> (b: bool)
    ensures
        b == is_ascii_alpha(c),
{
    ('a' <= c && c <= 'z') || ('A' <= c && c <= 'Z')
}

/// ASCII whitespace as `u8::is_ascii_whitespace` defines it.
pub open spec fn is_ascii_ws(c: char) -> bool {
    c == ' ' || c == '\t' || c == '\n' || c == '\u{c}' || c == '\r'
}

// ---------------------------------------------------------------------------
// Conversions between `&str`, `String` and `Vec<char>`
// ---------------------------------------------------------------------------

/// Appends one character to a `String` (std's `String::push`).
#[verifier::external_body]
pub(crate) fn push_char(s: &mut String, c: char)
    ensures
        final(s)@ == old(s)@.push(c),
{
    s.push(c);
}

/// The characters of `s`, in order.
pub fn chars_of(s: &str) -> (v: Vec<char>)
    ensures
        v@ == s@,
{
    broadcast use vstd::string::group_string_axioms;

    let mut v: Vec<char> = Vec::new();
    for c in it: s.chars()
        invariant
            v@ == it.seq().take(it.index() as int),
    {
        v.push(c);
    }
    v
}

/// A `String` holding the characters of `v`.
pub fn string_of(v: &Vec<char>) -> (s: String)
    ensures
        s@ == v@,
{
    let mut s = String::new();
    let mut i: usize = 0;
    while i < v.len()
        invariant
            i <= v.len(),
            s@ == v@.take(i as int),
        decreases v.len() - i,
    {
        push_char(&mut s, v[i]);
        i = i + 1;
        assert(s@ =~= v@.take(i as int));
    }
    assert(v@.take(v.len() as int) =~= v@);
    s
}

/// Appends the characters of a `&str` to a character vector.
pub fn push_str(out: &mut Vec<char>, p: &str)
    ensures
        final(out)@ == old(out)@ + p@,
{
    let mut v = chars_of(p);
    out.append(&mut v);
}

/// Appends a character vector to another.
pub fn push_all(out: &mut Vec<char>, p: &Vec<char>)
    ensures
        final(out)@ == old(out)@ + p@,
{
    let mut i: usize = 0;
    while i < p.len()
        invariant
            i <= p.len(),
            out@ == old(out)@ + p@.take(i as int),
        decreases p.len() - i,
    {
        out.push(p[i]);
        i = i + 1;
        assert(out@ =~= old(out)@ + p@.take(i as int));
    }
    assert(p@.take(p.len() as int) =~= p@);
}

/// A copy of `s[lo..hi]`.
pub fn copy_range(s: &Vec<char>, lo: usize, hi: usize) -> (v: Vec<char>)
    requires
        lo <= hi <= s.len(),
    ensures
        v@ == s@.subrange(lo as int, hi as int),
{
    let mut v: Vec<char> = Vec::new();
    let mut i = lo;
    while i < hi
        invariant
            lo <= i <= hi <= s.len(),
            v@ == s@.subrange(lo as int, i as int),
        decreases hi - i,
    {
        v.push(s[i]);
        i = i + 1;
        assert(v@ =~= s@.subrange(lo as int, i as int));
    }
    v
}

// ---------------------------------------------------------------------------
// Prefix tests
// ---------------------------------------------------------------------------

/// `p` occurs in `s` starting at position `i`.
pub open spec fn has_at(s: Seq<char>, i: int, p: Seq<char>) -> bool {
    0 <= i && i + p.len() <= s.len() && s.subrange(i, i + p.len()) == p
}

/// Whether `p` occurs in `s` at position `i`.
pub fn vec_at(s: &Vec<char>, i: usize, p: &Vec<char>) -> (b: bool)
    ensures
        b == has_at(s@, i as int, p@),
{
    if i > s.len() || p.len() > s.len() - i {
        return false;
    }
    let mut k: usize = 0;
    while k < p.len()
        invariant
            i + p.len() <= s.len(),
            k <= p.len(),
            forall|j: int| 0 <= j < k ==> s@[i + j] == p@[j],
        decreases p.len() - k,
    {
        if s[i + k] != p[k] {
            assert(s@.subrange(i as int, i + p.len())[k as int] != p@[k as int]);
            return false;
        }
        k = k + 1;
    }
    assert(s@.subrange(i as int, i + p.len()) =~= p@);
    true
}

/// Whether the literal `p` occurs in `s` at position `i`.
pub fn lit_at(s: &Vec<char>, i: usize, p: &str) -> (b: bool)
    ensures
        b == has_at(s@, i as int, p@),
{
    let pv = chars_of(p);
    vec_at(s, i, &pv)
}

// ---------------------------------------------------------------------------
// Trimming
// ---------------------------------------------------------------------------

/// `s` without its leading white space.
pub open spec fn trim_start(s: Seq<char>) -> Seq<char>
    decreases s.len(),
{
    if s.len() > 0 && is_ws(s[0]) {
        trim_start(s.drop_first())
    } else {
        s
    }
}

/// `s` without its trailing white space.
pub open spec fn trim_end(s: Seq<char>) -> Seq<char>
    decreases s.len(),
{
    if s.len() > 0 && is_ws(s.last()) {
        trim_end(s.drop_last())
    } else {
        s
    }
}

/// `s` without leading and trailing white space (`str::trim`).
pub open spec fn trim(s: Seq<char>) -> Seq<char> {
    trim_end(trim_start(s))
}

/// Leading white space can be dropped before trimming the start.
pub proof fn lemma_trim_start_skip(s: Seq<char>, k: int)
    requires
        0 <= k <= s.len(),
        forall|j: int| 0 <= j < k ==> is_ws(#[trigger] s[j]),
    ensures
        trim_start(s) == trim_start(s.skip(k)),
    decreases k,
{
    if k > 0 {
        lemma_trim_start_skip(s.drop_first(), k - 1);
        assert(s.drop_first().skip(k - 1) =~= s.skip(k));
    } else {
        assert(s.skip(0) =~= s);
    }
}

/// Trailing white space can be dropped before trimming the end.
pub proof fn lemma_trim_end_take(s: Seq<char>, k: int)
    requires
        0 <= k <= s.len(),
        forall|j: int| k <= j < s.len() ==> is_ws(#[trigger] s[j]),
    ensures
        trim_end(s) == trim_end(s.take(k)),
    decreases s.len() - k,
{
    if k < s.len() {
        lemma_trim_end_take(s.drop_last(), k);
        assert(s.drop_last().take(k) =~= s.take(k));
    } else {
        assert(s.take(k) =~= s);
    }
}

/// Bounds of `trim(s[lo..hi])` inside `s`.
pub fn trim_range(s: &Vec<char>, lo: usize, hi: usize) -> (r: (usize, usize))
    requires
        lo <= hi <= s.len(),
    ensures
        lo <= r.0 <= r.1 <= hi,
        s@.subrange(r.0 as int, r.1 as int) == trim(s@.subrange(lo as int, hi as int)),
{
    let ghost t = s@.subrange(lo as int, hi as int);
    let mut a = lo;
    while a < hi && is_whitespace(s[a])
        invariant
            lo <= a <= hi <= s.len(),
            forall|j: int| lo <= j < a ==> is_ws(#[trigger] s@[j]),
        decreases hi - a,
    {
        a = a + 1;
    }
    proof {
        assert forall|j: int| 0 <= j < a - lo implies is_ws(#[trigger] t[j]) by {
            assert(t[j] == s@[lo + j]);
        }
        lemma_trim_start_skip(t, a - lo);
        assert(t.skip(a - lo) =~= s@.subrange(a as int, hi as int));
    }
    let ghost u = s@.subrange(a as int, hi as int);
    assert(trim_start(u) == u);
    let mut b = hi;
    while b > a && is_whitespace(s[b - 1])
        invariant
            lo <= a <= b <= hi <= s.len(),
            forall|j: int| b <= j < hi ==> is_ws(#[trigger] s@[j]),
        decreases b - a,
    {
        b = b - 1;
    }
    proof {
        assert forall|j: int| b - a <= j < u.len() implies is_ws(#[trigger] u[j]) by {
            assert(u[j] == s@[a + j]);
        }
        lemma_trim_end_take(u, b - a);
        assert(u.take(b - a) =~= s@.subrange(a as int, b as int));
        let w = s@.subrange(a as int, b as int);
        assert(w.len() == 0 || !is_ws(w.last()));
    }
    (a, b)
}

/// `trim(s)` as a new vector.
pub fn trimmed(s: &Vec<char>) -> (v: Vec<char>)
    ensures
        v@ == trim(s@),
{
    let (a, b) = trim_range(s, 0, s.len());
    assert(s@.subrange(0, s@.len() as int) =~= s@);
    copy_range(s, a, b)
}

// ---------------------------------------------------------------------------
// Replacement
// ---------------------------------------------------------------------------

/// Every non-overlapping occurrence of `pat`, scanning left to right,
/// replaced by `rep` (`str::replace` for a non-empty pattern).
pub open spec fn replace_all(s: Seq<char>, pat: Seq<char>, rep: Seq<char>) -> Seq<char>
    decreases s.len(),
{
    if s.len() == 0 {
        s
    } else if pat.len() > 0 && has_at(s, 0, pat) {
        rep + replace_all(s.skip(pat.len() as int), pat, rep)
    } else {
        seq![s[0]] + replace_all(s.drop_first(), pat, rep)
    }
}

/// `replace_all(s, pat, rep)`.
pub fn replace_vec(s: &Vec<char>, pat: &Vec<char>, rep: &Vec<char>) -> (r: Vec<char>)
    requires
        pat.len() > 0,
    ensures
        r@ == replace_all(s@, pat@, rep@),
{
    let mut out: Vec<char> = Vec::new();
    let mut i: usize = 0;
    assert(s@.skip(0) =~= s@);
    assert(out@ + replace_all(s@, pat@, rep@) =~= replace_all(s@, pat@, rep@));
    while i < s.len()
        invariant
            i <= s.len(),
            pat.len() > 0,
            out@ + replace_all(s@.skip(i as int), pat@, rep@) == replace_all(s@, pat@, rep@),
        decreases s.len() - i,
    {
        let ghost rest = s@.skip(i as int);
        if vec_at(s, i, pat) {
            assert(rest.subrange(0, pat@.len() as int) =~= s@.subrange(i as int, i + pat@.len()));
            assert(rest.skip(pat@.len() as int) =~= s@.skip(i + pat@.len()));
            let ghost before = out@;
            push_all(&mut out, rep);
            i = i + pat.len();
            assert(before + (rep@ + replace_all(s@.skip(i as int), pat@, rep@)) =~= out@ + replace_all(s@.skip(i as int), pat@, rep@));
        } else {
            proof {
                if has_at(rest, 0, pat@) {
                    assert(rest.subrange(0, pat@.len() as int) =~= s@.subrange(i as int, i + pat@.len()));
                }
                assert(rest.drop_first() =~= s@.skip(i + 1));
            }
            let ghost before = out@;
            out.push(s[i]);
            i = i + 1;
            assert(before + (seq![rest[0]] + replace_all(s@.skip(i as int), pat@, rep@)) =~= out@ + replace_all(s@.skip(i as int), pat@, rep@));
        }
    }
    assert(s@.skip(s.len() as int) =~= Seq::<char>::empty());
    assert(out@ + Seq::<char>::empty() =~= out@);
    out
}

} // verus!

verus! {

// ---------------------------------------------------------------------------
// Unicode letters and digits
// ---------------------------------------------------------------------------

/// What `char::is_alphanumeric` answers for `c` (the Unicode `Alphabetic`
/// and `Numeric` properties).
pub uninterp spec fn alphanumeric(c: char) -> bool;

/// std's `char::is_alphanumeric`; its answer is named `alphanumeric`.
#[verifier::external_body]
pub(crate) fn char_is_alphanumeric(c: char) -> (b: bool)
    ensures
        b == alphanumeric(c),
{
    c.is_alphanumeric()
}

// ---------------------------------------------------------------------------
// Searching, splitting and joining
// ---------------------------------------------------------------------------

/// The first position at or after `i` where `p` occurs in `s`.
pub open spec fn find_from(s: Seq<char>, p: Seq<char>, i: int) -> Option<int>
    decreases s.len() + 1 - i,
{
    if i < 0 || i + p.len() > s.len() {
        None
    } else if has_at(s, i, p) {
        Some(i)
    } else {
        find_from(s, p, i + 1)
    }
}

/// What the search finds is an occurrence, the first one at or after `i`;
/// when it finds nothing, there is none.
pub proof fn lemma_find_from(s: Seq<char>, p: Seq<char>, i: int)
    ensures
        find_from(s, p, i) matches Some(k) ==> i <= k && k + p.len() <= s.len() && has_at(s, k, p),
        find_from(s, p, i) matches Some(k) ==> forall|j: int| i <= j < k ==> !has_at(s, j, p),
        find_from(s, p, i) is None ==> forall|j: int| 0 <= i <= j ==> !has_at(s, j, p),
    decreases s.len() + 1 - i,
{
    if !(i < 0 || i + p.len() > s.len()) && !has_at(s, i, p) {
        lemma_find_from(s, p, i + 1);
    }
}

/// `find_from(s, p, i)`.
pub fn find_vec(s: &Vec<char>, p: &Vec<char>, i: usize) -> (r: Option<usize>)
    ensures
        r matches Some(k) ==> find_from(s@, p@, i as int) == Some(k as int),
        r is None ==> find_from(s@, p@, i as int) is None,
{
    if p.len() == 0 {
        if i <= s.len() {
            assert(s@.subrange(i as int, i as int) =~= p@);
            return Some(i);
        }
        return None;
    }
    let mut j = i;
    while j < s.len() && p.len() <= s.len() - j
        invariant
            i <= j,
            p.len() > 0,
            find_from(s@, p@, i as int) == find_from(s@, p@, j as int),
        decreases s.len() - j,
    {
        if vec_at(s, j, p) {
            return Some(j);
        }
        j = j + 1;
    }
    None
}

/// `s` cut at every non-overlapping occurrence of `sep`, scanning left to
/// right (`str::split` with a non-empty pattern).
pub open spec fn split_seq(s: Seq<char>, sep: Seq<char>) -> Seq<Seq<char>>
    decreases s.len(),
{
    if sep.len() == 0 {
        seq![s]
    } else {
        match find_from(s, sep, 0) {
            Some(k) => if 0 <= k && k + sep.len() <= s.len() {
                seq![s.take(k)] + split_seq(s.skip(k + sep.len()), sep)
            } else {
                seq![s]
            },
            None => seq![s],
        }
    }
}

/// The parts joined with `sep` between consecutive parts (`join`).
pub open spec fn join_seq(parts: Seq<Seq<char>>, sep: Seq<char>) -> Seq<char>
    decreases parts.len(),
{
    if parts.len() == 0 {
        Seq::empty()
    } else if parts.len() == 1 {
        parts[0]
    } else {
        join_seq(parts.drop_last(), sep) + sep + parts.last()
    }
}

/// `split_seq(s, sep)`.
pub fn split_vec(s: &Vec<char>, sep: &Vec<char>) -> (parts: Vec<Vec<char>>)
    requires
        sep.len() > 0,
    ensures
        parts@.map_values(|p: Vec<char>| p@) == split_seq(s@, sep@),
{
    let mut parts: Vec<Vec<char>> = Vec::new();
    let mut i: usize = 0;
    let ghost whole = split_seq(s@, sep@);
    assert(s@.skip(0) =~= s@);
    assert(parts@.map_values(|p: Vec<char>| p@) + split_seq(s@, sep@) =~= whole);
    loop
        invariant
            i <= s.len(),
            sep.len() > 0,
            whole == split_seq(s@, sep@),
            parts@.map_values(|p: Vec<char>| p@) + split_seq(s@.skip(i as int), sep@) == whole,
        decreases s.len() - i,
    {
        let ghost rest = s@.skip(i as int);
        let ghost before = parts@.map_values(|p: Vec<char>| p@);
        let found = find_vec(s, sep, i);
        proof {
            lemma_find_from(s@, sep@, i as int);
            lemma_find_from(rest, sep@, 0);
            lemma_find_shift(s@, sep@, i as int);
        }
        match found {
            Some(k) => {
                let piece = copy_range(s, i, k);
                assert(piece@ =~= rest.take(k - i));
                assert(rest.skip(k - i + sep@.len()) =~= s@.skip(k + sep@.len()));
                parts.push(piece);
                i = k + sep.len();
                assert(parts@.map_values(|p: Vec<char>| p@) =~= before.push(piece@));
                assert(before.push(piece@) + split_seq(s@.skip(i as int), sep@)
                    =~= before + (seq![piece@] + split_seq(s@.skip(i as int), sep@)));
            },
            None => {
                let piece = copy_range(s, i, s.len());
                assert(piece@ =~= rest);
                parts.push(piece);
                assert(parts@.map_values(|p: Vec<char>| p@) =~= before.push(piece@));
                assert(before.push(piece@) =~= before + seq![rest]);
                return parts;
            },
        }
    }
}

/// Searching from `i` is searching the text that starts at `i`.
pub proof fn lemma_find_shift(s: Seq<char>, p: Seq<char>, i: int)
    requires
        0 <= i <= s.len(),
    ensures
        find_from(s, p, i) matches Some(k) ==> find_from(s.skip(i), p, 0) == Some(k - i),
        find_from(s, p, i) is None ==> find_from(s.skip(i), p, 0) is None,
{
    lemma_find_shift_from(s, p, i, i);
}

proof fn lemma_find_shift_from(s: Seq<char>, p: Seq<char>, i: int, j: int)
    requires
        0 <= i <= j,
        i <= s.len(),
    ensures
        find_from(s, p, j) matches Some(k) ==> find_from(s.skip(i), p, j - i) == Some(k - i),
        find_from(s, p, j) is None ==> find_from(s.skip(i), p, j - i) is None,
    decreases s.len() + 1 - j,
{
    let t = s.skip(i);
    if !(j + p.len() > s.len()) {
        if has_at(s, j, p) {
            assert(t.subrange(j - i, j - i + p.len()) =~= s.subrange(j, j + p.len()));
        } else {
            if has_at(t, j - i, p) {
                assert(t.subrange(j - i, j - i + p.len()) =~= s.subrange(j, j + p.len()));
            }
            lemma_find_shift_from(s, p, i, j + 1);
        }
    }
}

/// `join_seq(parts, sep)`.
pub fn join_vec(parts: &Vec<Vec<char>>, sep: &Vec<char>) -> (r: Vec<char>)
    ensures
        r@ == join_seq(parts@.map_values(|p: Vec<char>| p@), sep@),
{
    let ghost views = parts@.map_values(|p: Vec<char>| p@);
    let mut r: Vec<char> = Vec::new();
    let mut k: usize = 0;
    while k < parts.len()
        invariant
            k <= parts.len(),
            views == parts@.map_values(|p: Vec<char>| p@),
            r@ == join_seq(views.take(k as int), sep@),
        decreases parts.len() - k,
    {
        if k > 0 {
            push_all(&mut r, sep);
        }
        push_all(&mut r, &parts[k]);
        proof {
            let t = views.take(k + 1);
            assert(t.drop_last() =~= views.take(k as int));
            assert(t.last() == parts@[k as int]@);
            if k == 0 {
                assert(t.len() == 1);
            }
        }
        k = k + 1;
    }
    assert(views.take(parts.len() as int) =~= views);
    r
}

} // verus!

verus! {

// ---------------------------------------------------------------------------
// Lower case
// ---------------------------------------------------------------------------

/// What `str::to_lowercase` answers for `s` (the Unicode lower-case mapping).
pub uninterp spec fn lowercase(s: Seq<char>) -> Seq<char>;

/// std's `str::to_lowercase`; its answer is named `lowercase`.
#[verifier::external_body]
pub(crate) fn to_lowercase(s: &str) -> (r: String)
    ensures
        r@ == lowercase(s@),
{
    s.to_lowercase()
}

// ---------------------------------------------------------------------------
// Lines
// ---------------------------------------------------------------------------

/// The position of the first `\n` at or after `pos`, or the length.
pub open spec fn newline_from(s: Seq<char>, pos: int) -> int
    decreases s.len() - pos,
{
    if pos < 0 || pos >= s.len() || s[pos] == '\n' {
        pos
    } else {
        newline_from(s, pos + 1)
    }
}

/// The line break found is the first at or after `pos`, or the end.
pub proof fn lemma_newline_from(s: Seq<char>, pos: int)
    requires
        0 <= pos <= s.len(),
    ensures
        pos <= newline_from(s, pos) <= s.len(),
        newline_from(s, pos) < s.len() ==> s[newline_from(s, pos)] == '\n',
        forall|j: int| pos <= j < newline_from(s, pos) ==> s[j] != '\n',
    decreases s.len() - pos,
{
    if pos < s.len() && s[pos] != '\n' {
        lemma_newline_from(s, pos + 1);
    }
}

/// The end of the text of the line that starts at `pos`: a `\r` just before
/// the `\n` is not part of it.
pub open spec fn line_text_end(s: Seq<char>, pos: int) -> int {
    let le = newline_from(s, pos);
    if le < s.len() && le > pos && s[le - 1] == '\r' {
        le - 1
    } else {
        le
    }
}

/// Where the line after the one that starts at `pos` starts.
pub open spec fn next_line(s: Seq<char>, pos: int) -> int {
    let le = newline_from(s, pos);
    if le < s.len() {
        le + 1
    } else {
        le
    }
}

/// The lines of `s[pos..]` without their terminators (`str::lines`).
pub open spec fn lines_from(s: Seq<char>, pos: int) -> Seq<Seq<char>>
    decreases s.len() - pos,
{
    if pos < 0 || pos >= s.len() {
        Seq::empty()
    } else {
        let n = next_line(s, pos);
        if pos < n <= s.len() {
            seq![s.subrange(pos, line_text_end(s, pos))] + lines_from(s, n)
        } else {
            Seq::empty()
        }
    }
}

/// The lines of `s`.
pub open spec fn lines_of(s: Seq<char>) -> Seq<Seq<char>> {
    lines_from(s, 0)
}

/// The bounds of the line that starts at `pos`: `(text end, next line)`.
pub fn line_bounds(s: &Vec<char>, pos: usize) -> (r: (usize, usize))
    requires
        pos < s.len(),
    ensures
        r.0 == line_text_end(s@, pos as int),
        r.1 == next_line(s@, pos as int),
        pos <= r.0 <= s.len(),
        pos < r.1 <= s.len(),
{
    proof {
        lemma_newline_from(s@, pos as int);
    }
    let mut le = pos;
    while le < s.len() && s[le] != '\n'
        invariant
            pos <= le <= s.len(),
            newline_from(s@, pos as int) == newline_from(s@, le as int),
        decreases s.len() - le,
    {
        le = le + 1;
    }
    let end = if le < s.len() && le > pos && s[le - 1] == '\r' {
        le - 1
    } else {
        le
    };
    let next = if le < s.len() {
        le + 1
    } else {
        le
    };
    (end, next)
}

/// The lines of `s`, without their terminators.
pub fn lines_vec(s: &Vec<char>) -> (r: Vec<Vec<char>>)
    ensures
        r@.map_values(|l: Vec<char>| l@) == lines_of(s@),
{
    let mut r: Vec<Vec<char>> = Vec::new();
    let mut pos: usize = 0;
    assert(r@.map_values(|l: Vec<char>| l@) + lines_from(s@, 0) =~= lines_of(s@));
    while pos < s.len()
        invariant
            pos <= s.len(),
            r@.map_values(|l: Vec<char>| l@) + lines_from(s@, pos as int) == lines_of(s@),
        decreases s.len() - pos,
    {
        let ghost before = r@.map_values(|l: Vec<char>| l@);
        let (end, next) = line_bounds(s, pos);
        let line = copy_range(s, pos, end);
        r.push(line);
        assert(r@.map_values(|l: Vec<char>| l@) =~= before.push(line@));
        assert(before.push(line@) + lines_from(s@, next as int) =~= before + (seq![line@]
            + lines_from(s@, next as int)));
        pos = next;
    }
    assert(r@.map_values(|l: Vec<char>| l@) + lines_from(s@, pos as int) =~= r@.map_values(
        |l: Vec<char>| l@,
    ));
    r
}

// ---------------------------------------------------------------------------
// Stripping a given character
// ---------------------------------------------------------------------------

/// `s` without the copies of `c` at its start and end (`str::trim_matches`
/// with a character).
pub open spec fn strip_char(s: Seq<char>, c: char) -> Seq<char> {
    strip_char_end(strip_char_start(s, c), c)
}

pub open spec fn strip_char_start(s: Seq<char>, c: char) -> Seq<char>
    decreases s.len(),
{
    if s.len() > 0 && s[0] == c {
        strip_char_start(s.drop_first(), c)
    } else {
        s
    }
}

pub open spec fn strip_char_end(s: Seq<char>, c: char) -> Seq<char>
    decreases s.len(),
{
    if s.len() > 0 && s.last() == c {
        strip_char_end(s.drop_last(), c)
    } else {
        s
    }
}

/// `strip_char(s, c)`.
pub fn strip_char_vec(s: &Vec<char>, c: char) -> (r: Vec<char>)
    ensures
        r@ == strip_char(s@, c),
{
    let mut a: usize = 0;
    assert(s@.skip(0) =~= s@);
    while a < s.len() && s[a] == c
        invariant
            a <= s.len(),
            strip_char_start(s@, c) == strip_char_start(s@.skip(a as int), c),
        decreases s.len() - a,
    {
        assert(s@.skip(a as int).drop_first() =~= s@.skip(a + 1));
        a = a + 1;
    }
    let mut b = s.len();
    let ghost u = s@.skip(a as int);
    assert(strip_char_start(u, c) == u);
    assert(u =~= s@.subrange(a as int, s.len() as int));
    while b > a && s[b - 1] == c
        invariant
            a <= b <= s.len(),
            u == s@.subrange(a as int, s.len() as int),
            strip_char_end(u, c) == strip_char_end(s@.subrange(a as int, b as int), c),
        decreases b - a,
    {
        assert(s@.subrange(a as int, b as int).drop_last() =~= s@.subrange(a as int, b - 1));
        b = b - 1;
    }
    copy_range(s, a, b)
}

} // verus!

verus! {

// ---------------------------------------------------------------------------
// Decimal numbers
// ---------------------------------------------------------------------------

/// The decimal digit for `d < 10`.
pub open spec fn digit(d: nat) -> char {
    if d == 0 {
        '0'
    } else if d == 1 {
        '1'
    } else if d == 2 {
        '2'
    } else if d == 3 {
        '3'
    } else if d == 4 {
        '4'
    } else if d == 5 {
        '5'
    } else if d == 6 {
        '6'
    } else if d == 7 {
        '7'
    } else if d == 8 {
        '8'
    } else {
        '9'
    }
}

/// The decimal representation of `n`, without leading zeros.
pub open spec fn decimal(n: nat) -> Seq<char>
    decreases n,
{
    if n < 10 {
        seq![digit(n)]
    } else {
        decimal(n / 10).push(digit(n % 10))
    }
}

fn digit_exec(d: usize) -> (c: char)
    requires
        d < 10,
    ensures
        c == digit(d as nat),
{
    if d == 0 {
        '0'
    } else if d == 1 {
        '1'
    } else if d == 2 {
        '2'
    } else if d == 3 {
        '3'
    } else if d == 4 {
        '4'
    } else if d == 5 {
        '5'
    } else if d == 6 {
        '6'
    } else if d == 7 {
        '7'
    } else if d == 8 {
        '8'
    } else {
        '9'
    }
}

/// Appends the decimal representation of `n`.
pub fn push_decimal(out: &mut Vec<char>, n: usize)
    ensures
        final(out)@ == old(out)@ + decimal(n as nat),
    decreases n,
{
    if n < 10 {
        out.push(digit_exec(n));
        assert(final(out)@ =~= old(out)@ + decimal(n as nat));
    } else {
        push_decimal(out, n / 10);
        out.push(digit_exec(n % 10));
        assert(final(out)@ =~= old(out)@ + decimal(n as nat));
    }
}

} // verus!

verus! {

// ---------------------------------------------------------------------------
// Lengths
// ---------------------------------------------------------------------------

/// The summed lengths of `parts`.
pub open spec fn total_len(parts: Seq<Seq<char>>) -> nat
    decreases parts.len(),
{
    if parts.len() == 0 {
        0
    } else {
        total_len(parts.drop_last()) + parts.last().len()
    }
}

/// The first part and the rest make up the summed length.
pub proof fn lemma_total_len_first(parts: Seq<Seq<char>>)
    requires
        parts.len() > 0,
    ensures
        total_len(parts) == parts[0].len() + total_len(parts.drop_first()),
    decreases parts.len(),
{
    if parts.len() > 1 {
        lemma_total_len_first(parts.drop_last());
        assert(parts.drop_last().drop_first() =~= parts.drop_first().drop_last());
        assert(parts.drop_last()[0] == parts[0]);
        assert(parts.drop_first().last() == parts.last());
    } else {
        assert(parts.drop_first() =~= Seq::<Seq<char>>::empty());
        assert(parts.drop_last() =~= Seq::<Seq<char>>::empty());
    }
}

proof fn lemma_total_len_one(s: Seq<char>)
    ensures
        total_len(seq![s]) == s.len(),
{
    assert(seq![s].drop_last() =~= Seq::<Seq<char>>::empty());
    assert(seq![s].last() == s);
    assert(total_len(Seq::<Seq<char>>::empty()) == 0);
}

/// Splitting keeps every character but the separators: one fewer
/// separator than parts.
pub proof fn lemma_split_len(s: Seq<char>, sep: Seq<char>)
    requires
        sep.len() > 0,
    ensures
        split_seq(s, sep).len() >= 1,
        s.len() == total_len(split_seq(s, sep)) + sep.len() * (split_seq(s, sep).len() - 1),
    decreases s.len(),
{
    let parts = split_seq(s, sep);
    lemma_find_from(s, sep, 0);
    match find_from(s, sep, 0) {
        Some(k) => {
            if 0 <= k && k + sep.len() <= s.len() {
                let rest = s.skip(k + sep.len());
                lemma_split_len(rest, sep);
                let rp = split_seq(rest, sep);
                assert(parts == seq![s.take(k)] + rp);
                assert(parts.drop_first() =~= rp);
                lemma_total_len_first(parts);
                assert(parts[0] == s.take(k));
                assert(total_len(parts) == k + total_len(rp));
                assert(parts.len() == rp.len() + 1);
                assert(rest.len() == s.len() - k - sep.len());
                let c = rp.len() as int;
                let l = sep.len() as int;
                assert(l * c == l * (c - 1) + l) by (nonlinear_arith);
                assert(parts.len() - 1 == c);
            } else {
                lemma_total_len_one(s);
                assert(sep.len() * (parts.len() - 1) == 0) by (nonlinear_arith)
                    requires
                        parts.len() == 1,
                ;
            }
        },
        None => {
            lemma_total_len_one(s);
            assert(sep.len() * (parts.len() - 1) == 0) by (nonlinear_arith)
                requires
                    parts.len() == 1,
            ;
        },
    }
}

/// Joining adds one separator between consecutive parts.
pub proof fn lemma_join_len(parts: Seq<Seq<char>>, sep: Seq<char>)
    requires
        parts.len() > 0,
    ensures
        join_seq(parts, sep).len() == total_len(parts) + sep.len() * (parts.len() - 1),
    decreases parts.len(),
{
    if parts.len() == 1 {
        assert(parts.drop_last() =~= Seq::<Seq<char>>::empty());
        assert(total_len(Seq::<Seq<char>>::empty()) == 0);
        assert(parts.last() == parts[0]);
        assert(sep.len() * (parts.len() - 1) == 0) by (nonlinear_arith)
            requires
                parts.len() == 1,
        ;
    } else {
        lemma_join_len(parts.drop_last(), sep);
        let c = parts.len() as int;
        let l = sep.len() as int;
        assert(l * (c - 1 - 1) + l == l * (c - 1)) by (nonlinear_arith);
    }
}

/// Trimming never lengthens.
pub proof fn lemma_trim_len(s: Seq<char>)
    ensures
        trim(s).len() <= s.len(),
        trim_start(s).len() <= s.len(),
        trim_end(s).len() <= s.len(),
    decreases s.len(),
{
    if s.len() > 0 {
        lemma_trim_len(s.drop_first());
        lemma_trim_len(s.drop_last());
    }
    lemma_trim_end_len(trim_start(s));
}

proof fn lemma_trim_end_len(s: Seq<char>)
    ensures
        trim_end(s).len() <= s.len(),
    decreases s.len(),
{
    if s.len() > 0 {
        lemma_trim_end_len(s.drop_last());
    }
}

} // verus!
