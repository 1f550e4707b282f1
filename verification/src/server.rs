//! The decisions of the board server: where a request goes, whether a
//! polling viewer is up to date, what a selection on the board becomes,
//! which posted selections are refused, which file changes call for a new
//! rendering, and what the pid and port files hold.
use vstd::prelude::*;
use crate::document::Selection;
use crate::text::{
    chars_of, decimal, has_at, lit_at, push_all, push_decimal, push_str, split_seq, split_vec,
    string_of,
    trim, trim_range, copy_range,
};
use crate::unicode::{latex_to_unicode, unicode_of};

verus! {

// ---------------------------------------------------------------------------
// Version numbers in URLs
// ---------------------------------------------------------------------------

pub open spec fn is_digit(c: char) -> bool {
    '0' <= c && c <= '9'
}

/// The value of a decimal digit.
pub open spec fn digit_value(c: char) -> nat {
    (c as u32 - '0' as u32) as nat
}

/// The value of a string of decimal digits.
pub open spec fn digits_value(s: Seq<char>) -> nat
    decreases s.len(),
{
    if s.len() == 0 {
        0
    } else {
        digits_value(s.drop_last()) * 10 + digit_value(s.last())
    }
}

/// `s` without a leading `+`.
pub open spec fn unsigned_part(s: Seq<char>) -> Seq<char> {
    if s.len() > 0 && s[0] == '+' {
        s.drop_first()
    } else {
        s
    }
}

/// `s` as a `u64` (`str::parse::<u64>`): an optional `+`, then at least one
/// digit, and a value that fits.
pub open spec fn parsed_u64(s: Seq<char>) -> Option<u64> {
    let d = unsigned_part(s);
    if d.len() > 0 && (forall|k: int| 0 <= k < d.len() ==> is_digit(#[trigger] d[k]))
        && digits_value(d) <= u64::MAX {
        Some(digits_value(d) as u64)
    } else {
        None
    }
}

proof fn lemma_digits_grow(s: Seq<char>, k: int)
    requires
        0 <= k <= s.len(),
    ensures
        digits_value(s.take(k)) <= digits_value(s),
    decreases s.len() - k,
{
    if k < s.len() {
        lemma_digits_grow(s, k + 1);
        assert(s.take(k + 1).drop_last() =~= s.take(k));
    } else {
        assert(s.take(k) =~= s);
    }
}

/// `parsed_u64(s[lo..hi])`.
pub fn parse_u64(s: &Vec<char>, lo: usize, hi: usize) -> (r: Option<u64>)
    requires
        lo <= hi <= s.len(),
    ensures
        r == parsed_u64(s@.subrange(lo as int, hi as int)),
{
    let ghost t = s@.subrange(lo as int, hi as int);
    let mut a = lo;
    if a < hi && s[a] == '+' {
        a = a + 1;
    }
    let ghost d = s@.subrange(a as int, hi as int);
    assert(d =~= if t.len() > 0 && t[0] == '+' {
        t.drop_first()
    } else {
        t
    });
    if a == hi {
        return None;
    }
    let mut acc: u128 = 0;
    let mut k = a;
    while k < hi
        invariant
            a <= k <= hi <= s.len(),
            d == s@.subrange(a as int, hi as int),
            t == s@.subrange(lo as int, hi as int),
            d == unsigned_part(t),
            d.len() > 0,
            acc == digits_value(d.take(k - a)),
            acc <= u64::MAX,
            forall|j: int| 0 <= j < k - a ==> is_digit(#[trigger] d[j]),
        decreases hi - k,
    {
        let c = s[k];
        if !('0' <= c && c <= '9') {
            assert(d[k - a] == c);
            assert(!is_digit(d[k - a]));
            assert(unsigned_part(t)[k - a] == c);
            return None;
        }
        assert(d.take(k - a + 1).drop_last() =~= d.take(k - a));
        assert(d.take(k - a + 1).last() == c);
        acc = acc * 10 + (c as u32 - '0' as u32) as u128;
        assert(acc == digits_value(d.take(k - a + 1)));
        if acc > u64::MAX as u128 {
            proof {
                lemma_digits_grow(d, k - a + 1);
            }
            return None;
        }
        k = k + 1;
    }
    assert(d.take(hi - a) =~= d);
    Some(acc as u64)
}

/// The query of a URL: what stands between its first and second `?`.
pub open spec fn query_of(url: Seq<char>) -> Option<Seq<char>> {
    let parts = split_seq(url, seq!['?']);
    if parts.len() > 1 {
        Some(parts[1])
    } else {
        None
    }
}

/// The value of the first `v=` parameter, if it parses.
pub open spec fn version_in(params: Seq<Seq<char>>) -> Option<u64>
    decreases params.len(),
{
    if params.len() == 0 {
        None
    } else if has_at(params[0], 0, seq!['v', '=']) {
        parsed_u64(params[0].skip(2))
    } else {
        version_in(params.drop_first())
    }
}

/// The `v` parameter of a URL's query.
pub open spec fn version_param(url: Seq<char>) -> Option<u64> {
    match query_of(url) {
        None => None,
        Some(q) => version_in(split_seq(q, seq!['&'])),
    }
}

/// The `v=<version>` parameter of a URL (`parse_version_param`).
pub fn parse_version_param(url: &str) -> (r: Option<u64>)
    ensures
        r == version_param(url@),
{
    let u = chars_of(url);
    let mut q: Vec<char> = Vec::new();
    q.push('?');
    assert(q@ =~= seq!['?']);
    let parts = split_vec(&u, &q);
    assert(parts@.map_values(|p: Vec<char>| p@).len() == parts@.len());
    if parts.len() <= 1 {
        return None;
    }
    assert(parts@.map_values(|p: Vec<char>| p@)[1] == parts@[1]@);
    let mut amp: Vec<char> = Vec::new();
    amp.push('&');
    assert(amp@ =~= seq!['&']);
    let params = split_vec(&parts[1], &amp);
    let ghost pv = params@.map_values(|p: Vec<char>| p@);
    let mut k: usize = 0;
    let mut ve: Vec<char> = Vec::new();
    ve.push('v');
    ve.push('=');
    assert(ve@ =~= seq!['v', '=']);
    assert(pv.skip(0) =~= pv);
    while k < params.len()
        invariant
            k <= params.len(),
            pv == params@.map_values(|p: Vec<char>| p@),
            ve@ == seq!['v', '='],
            version_in(pv.skip(k as int)) == version_param(url@),
        decreases params.len() - k,
    {
        assert(pv.skip(k as int)[0] == params@[k as int]@);
        assert(pv.skip(k as int).drop_first() =~= pv.skip(k + 1));
        if crate::text::vec_at(&params[k], 0, &ve) {
            let p = &params[k];
            let r = parse_u64(p, 2, p.len());
            assert(p@.subrange(2, p@.len() as int) =~= p@.skip(2));
            return r;
        }
        k = k + 1;
    }
    None
}

/// Whether a viewer that asks with `url` already has board version
/// `version`: its `v` parameter is at least `version`.
pub fn is_up_to_date(url: &str, version: u64) -> (b: bool)
    ensures
        b == (version_param(url@) matches Some(v) && v >= version),
{
    match parse_version_param(url) {
        Some(v) => v >= version,
        None => false,
    }
}

// ---------------------------------------------------------------------------
// Selections
// ---------------------------------------------------------------------------

/// The selection that a viewer's request describes: the equation's LaTeX
/// converted to Unicode, and as `formatted` the text copied to the terminal
/// for the trimmed selection (`[Step n] ...`, or its partial form).
pub fn selection_of(
    step_id: usize,
    title: String,
    latex: String,
    text: &str,
    selected_at: String,
) -> (s: Selection)
    ensures
        s.step_id == step_id,
        s.title@ == title@,
        s.latex@ == latex@,
        s.unicode@ == unicode_of(latex@),
        s.formatted@ == reference_text(trim(text@), step_id as nat, s.unicode@),
        s.notes@.len() == 0,
        s.selected_at@ == selected_at@,
{
    let unicode = latex_to_unicode(latex.as_str());
    let t = chars_of(text);
    let (a, b) = trim_range(&t, 0, t.len());
    assert(t@.subrange(0, t@.len() as int) =~= t@);
    let selected = string_of(&copy_range(&t, a, b));
    let formatted = terminal_reference(selected.as_str(), step_id, unicode.as_str());
    Selection { step_id, title, latex, unicode, formatted, notes: Vec::new(), selected_at }
}

/// A selection is a part of the equation: not empty, shorter than it and
/// at most three quarters of its length.
pub open spec fn is_partial(sel: Seq<char>, eq: Seq<char>) -> bool {
    sel.len() > 0 && sel.len() < eq.len() && sel.len() <= eq.len() * 3 / 4
}

/// What is copied to the terminal: `{selected} in [Step N] {equation}` for
/// a part of the equation, `[Step N] {equation}` otherwise.
pub open spec fn reference_text(sel: Seq<char>, step: nat, eq: Seq<char>) -> Seq<char> {
    if is_partial(sel, eq) {
        sel + " in [Step "@ + decimal(step) + "] "@ + eq
    } else {
        "[Step "@ + decimal(step) + "] "@ + eq
    }
}

/// The text copied to the terminal for a selection of `selected` (already
/// trimmed) in step `step_id` whose equation reads `unicode`.
pub fn terminal_reference(selected: &str, step_id: usize, unicode: &str) -> (r: String)
    ensures
        r@ == reference_text(selected@, step_id as nat, unicode@),
{
    let sel = chars_of(selected);
    let eq = chars_of(unicode);
    let sel_n = sel.len() as u128;
    let eq_n = eq.len() as u128;
    let partial = sel_n > 0 && sel_n < eq_n && sel_n <= eq_n * 3 / 4;
    let mut out: Vec<char> = Vec::new();
    if partial {
        push_all(&mut out, &sel);
        push_str(&mut out, " in [Step ");
    } else {
        push_str(&mut out, "[Step ");
    }
    push_decimal(&mut out, step_id);
    push_str(&mut out, "] ");
    push_all(&mut out, &eq);
    assert(out@ =~= reference_text(selected@, step_id as nat, unicode@));
    string_of(&out)
}

} // verus!

verus! {

// ---------------------------------------------------------------------------
// Routes
// ---------------------------------------------------------------------------

/// The method of a request, as far as routing tells them apart.
#[derive(Debug, Clone, Copy, PartialEq, Eq, Structural)]
pub enum RequestMethod {
    Get,
    Post,
    Other,
}

/// Where a request goes.
#[derive(Debug)]
pub enum Route {
    /// A file of the viewer (`katex` false) or of KaTeX (`katex` true),
    /// served with its content type.
    Asset { katex: bool, file: String, content_type: String },
    /// The board as JSON, for polling viewers.
    Board,
    /// A selection posted by a viewer.
    Select,
    /// Nothing here.
    NotFound,
}

/// A route, its strings taken as characters.
pub enum RouteView {
    Asset { katex: bool, file: Seq<char>, content_type: Seq<char> },
    Board,
    Select,
    NotFound,
}

impl View for Route {
    type V = RouteView;

    open spec fn view(&self) -> RouteView {
        match self {
            Route::Asset { katex, file, content_type } => RouteView::Asset {
                katex: *katex,
                file: file@,
                content_type: content_type@,
            },
            Route::Board => RouteView::Board,
            Route::Select => RouteView::Select,
            Route::NotFound => RouteView::NotFound,
        }
    }
}

/// Where a request for `url` goes: the viewer's page, style sheet and
/// script; the board (`/board`, with or without a query); KaTeX's style
/// sheet and fonts; a posted selection at `/select`; nowhere otherwise.
pub open spec fn route_for(method: RequestMethod, url: Seq<char>) -> RouteView {
    match method {
        RequestMethod::Get => if url == "/"@ {
            RouteView::Asset {
                katex: false,
                file: "viewer.html"@,
                content_type: "text/html; charset=utf-8"@,
            }
        } else if url == "/viewer.css"@ {
            RouteView::Asset { katex: false, file: "viewer.css"@, content_type: "text/css"@ }
        } else if url == "/viewer.js"@ {
            RouteView::Asset {
                katex: false,
                file: "viewer.js"@,
                content_type: "application/javascript"@,
            }
        } else if url == "/board"@ || has_at(url, 0, "/board?"@) {
            RouteView::Board
        } else if url == "/katex/katex.min.css"@ {
            RouteView::Asset { katex: true, file: "katex.min.css"@, content_type: "text/css"@ }
        } else if has_at(url, 0, "/katex/fonts/"@) {
            RouteView::Asset {
                katex: true,
                file: "fonts/"@ + url.skip("/katex/fonts/"@.len() as int),
                content_type: "font/woff2"@,
            }
        } else {
            RouteView::NotFound
        },
        RequestMethod::Post => if url == "/select"@ {
            RouteView::Select
        } else {
            RouteView::NotFound
        },
        RequestMethod::Other => RouteView::NotFound,
    }
}

/// Whether `u` is the literal `p`.
fn is_lit(u: &Vec<char>, p: &str) -> (b: bool)
    ensures
        b == (u@ == p@),
{
    let r = u.len() == p.unicode_len() && lit_at(u, 0, p);
    proof {
        assert(u@.subrange(0, u@.len() as int) =~= u@);
    }
    r
}

/// Where a request goes (`handle_request`, `handle_get`).
pub fn route(method: RequestMethod, url: &str) -> (r: Route)
    ensures
        r@ == route_for(method, url@),
{
    let u = chars_of(url);
    match method {
        RequestMethod::Get => {
            if is_lit(&u, "/") {
                Route::Asset {
                    katex: false,
                    file: String::from_str("viewer.html"),
                    content_type: String::from_str("text/html; charset=utf-8"),
                }
            } else if is_lit(&u, "/viewer.css") {
                Route::Asset {
                    katex: false,
                    file: String::from_str("viewer.css"),
                    content_type: String::from_str("text/css"),
                }
            } else if is_lit(&u, "/viewer.js") {
                Route::Asset {
                    katex: false,
                    file: String::from_str("viewer.js"),
                    content_type: String::from_str("application/javascript"),
                }
            } else if is_lit(&u, "/board") || lit_at(&u, 0, "/board?") {
                Route::Board
            } else if is_lit(&u, "/katex/katex.min.css") {
                Route::Asset {
                    katex: true,
                    file: String::from_str("katex.min.css"),
                    content_type: String::from_str("text/css"),
                }
            } else if lit_at(&u, 0, "/katex/fonts/") {
                let mut file = chars_of("fonts/");
                let prefix = "/katex/fonts/".unicode_len();
                push_all(&mut file, &copy_range(&u, prefix, u.len()));
                proof {
                    assert(u@.subrange(prefix as int, u@.len() as int) =~= u@.skip(
                        "/katex/fonts/"@.len() as int,
                    ));
                }
                Route::Asset {
                    katex: true,
                    file: string_of(&file),
                    content_type: String::from_str("font/woff2"),
                }
            } else {
                Route::NotFound
            }
        },
        RequestMethod::Post => {
            if is_lit(&u, "/select") {
                Route::Select
            } else {
                Route::NotFound
            }
        },
        RequestMethod::Other => Route::NotFound,
    }
}

} // verus!

verus! {

// ---------------------------------------------------------------------------
// The server's pid and port files
// ---------------------------------------------------------------------------

/// The number that a pid or port file holds: its text, trimmed, as an
/// unsigned number no greater than `max` (`str::trim` then `str::parse`).
pub open spec fn number_in(text: Seq<char>, max: u64) -> Option<u64> {
    match parsed_u64(trim(text)) {
        Some(v) => if v <= max {
            Some(v)
        } else {
            None
        },
        None => None,
    }
}

fn number_of(text: &str, max: u64) -> (r: Option<u64>)
    ensures
        r == number_in(text@, max),
{
    let t = chars_of(text);
    let (a, b) = trim_range(&t, 0, t.len());
    assert(t@.subrange(0, t@.len() as int) =~= t@);
    match parse_u64(&t, a, b) {
        Some(v) => if v <= max {
            Some(v)
        } else {
            None
        },
        None => None,
    }
}

/// The process id that a pid file's text holds (`read_pid`).
pub fn parse_pid(text: &str) -> (r: Option<u32>)
    ensures
        r matches Some(p) ==> number_in(text@, u32::MAX as u64) == Some(p as u64),
        r is None ==> number_in(text@, u32::MAX as u64) is None,
{
    match number_of(text, u32::MAX as u64) {
        Some(v) => Some(v as u32),
        None => None,
    }
}

/// The port that a port file's text holds (`read_port`).
pub fn parse_port(text: &str) -> (r: Option<u16>)
    ensures
        r matches Some(p) ==> number_in(text@, u16::MAX as u64) == Some(p as u64),
        r is None ==> number_in(text@, u16::MAX as u64) is None,
{
    match number_of(text, u16::MAX as u64) {
        Some(v) => Some(v as u16),
        None => None,
    }
}

} // verus!

verus! {

// ---------------------------------------------------------------------------
// Posted selections and board changes
// ---------------------------------------------------------------------------

/// The most bytes a posted selection may have.
pub const MAX_SELECT_BODY: usize = 65536;

/// How the server refuses a posted selection, by the length the request
/// declares (none counts as 0) and the body it read (`None` when reading
/// failed, else its length in bytes): 413 when either is too long, 400
/// when reading failed; no refusal otherwise.
pub open spec fn select_refusal_of(declared: Option<usize>, body: Option<usize>) -> Option<u16> {
    let d: usize = match declared {
        Some(n) => n,
        None => 0,
    };
    if d > MAX_SELECT_BODY {
        Some(413)
    } else {
        match body {
            None => Some(400),
            Some(n) => if n > MAX_SELECT_BODY {
                Some(413)
            } else {
                None
            },
        }
    }
}

/// The status with which a posted selection is refused, if it is
/// (`handle_select`).
pub fn select_refusal(declared: Option<usize>, body: Option<usize>) -> (r: Option<u16>)
    ensures
        r == select_refusal_of(declared, body),
{
    let d: usize = match declared {
        Some(n) => n,
        None => 0,
    };
    if d > MAX_SELECT_BODY {
        Some(413)
    } else {
        match body {
            None => Some(400),
            Some(n) => if n > MAX_SELECT_BODY {
                Some(413)
            } else {
                None
            },
        }
    }
}

/// What the file watcher reports of a change.
#[derive(Debug, Clone, Copy, PartialEq, Eq, Structural)]
pub enum FileChange {
    Created,
    Modified,
    Other,
}

/// The board must be rendered again: a file was created or modified, and
/// the board is among the paths of the change.
pub open spec fn board_touched(change: FileChange, paths: Seq<Seq<char>>, board: Seq<char>) -> bool {
    &&& (change == FileChange::Created || change == FileChange::Modified)
    &&& exists|i: int| 0 <= i < paths.len() && #[trigger] paths[i] == board
}

/// Whether a change reported by the watcher calls for rendering the board
/// again (`start_file_watcher`).
pub fn board_changed(change: FileChange, paths: &Vec<String>, board: &str) -> (b: bool)
    ensures
        b == board_touched(change, paths@.map_values(|p: String| p@), board@),
{
    let ghost pv = paths@.map_values(|p: String| p@);
    if !(change == FileChange::Created || change == FileChange::Modified) {
        return false;
    }
    let bv = chars_of(board);
    let mut k: usize = 0;
    while k < paths.len()
        invariant
            k <= paths.len(),
            pv == paths@.map_values(|p: String| p@),
            bv@ == board@,
            change == FileChange::Created || change == FileChange::Modified,
            forall|i: int| 0 <= i < k ==> pv[i] != board@,
        decreases paths.len() - k,
    {
        let pk = chars_of(paths[k].as_str());
        assert(pv[k as int] == paths@[k as int]@);
        if pk.len() == bv.len() && crate::text::vec_at(&pk, 0, &bv) {
            assert(pk@.subrange(0, pk@.len() as int) =~= pk@);
            assert(pv[k as int] == board@);
            assert(pv.len() == paths.len());
            assert(board_touched(change, pv, board@));
            return true;
        }
        proof {
            if pv[k as int] == board@ {
                assert(pk@.subrange(0, bv@.len() as int) =~= pk@);
            }
        }
        k = k + 1;
    }
    false
}

} // verus!
