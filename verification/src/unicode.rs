//! LaTeX math to Unicode text, for pasting equations into a terminal.
//!
//! The conversion runs in five passes: sizing and spacing commands are
//! stripped, matrix environments are flattened, structural commands
//! (fractions, roots, scripts, accents, font commands) are rewritten, named
//! symbols are replaced, and white space is tidied. Each pass has a
//! specification over `Seq<char>`, and `latex_to_unicode` is their
//! composition.
use vstd::prelude::*;
use crate::text::{
    alphanumeric, ascii_alpha, char_is_alphanumeric, chars_of, copy_range, find_from,
    find_vec, has_at, is_ascii_alpha, is_ascii_ws, is_whitespace, is_ws, join_seq, join_vec,
    lemma_find_from, push_all, push_str, replace_all, replace_vec, split_seq, split_vec,
    string_of, trim, trim_range, vec_at, lit_at, total_len, lemma_split_len, lemma_join_len,
    lemma_trim_len,
};

verus! {

// ---------------------------------------------------------------------------
// Symbol table
// ---------------------------------------------------------------------------

/// Lower-case greek letters.
pub open spec fn greek_lower() -> Seq<(&'static str, &'static str)> {
    seq![
        ("\\varepsilon", "\u{03B5}"), ("\\vartheta", "\u{03D1}"), ("\\varphi", "\u{03C6}"),
        ("\\alpha", "\u{03B1}"), ("\\beta", "\u{03B2}"), ("\\gamma", "\u{03B3}"),
        ("\\delta", "\u{03B4}"), ("\\epsilon", "\u{03B5}"), ("\\zeta", "\u{03B6}"),
        ("\\eta", "\u{03B7}"), ("\\theta", "\u{03B8}"), ("\\iota", "\u{03B9}"),
        ("\\kappa", "\u{03BA}"), ("\\lambda", "\u{03BB}"), ("\\mu", "\u{03BC}"),
        ("\\nu", "\u{03BD}"), ("\\xi", "\u{03BE}"), ("\\pi", "\u{03C0}"),
        ("\\rho", "\u{03C1}"), ("\\sigma", "\u{03C3}"), ("\\tau", "\u{03C4}"),
        ("\\upsilon", "\u{03C5}"), ("\\phi", "\u{03C6}"), ("\\chi", "\u{03C7}"),
        ("\\psi", "\u{03C8}"), ("\\omega", "\u{03C9}"),
    ]
}

fn greek_lower_exec() -> (t: Vec<(&'static str, &'static str)>)
    ensures
        t@ == greek_lower(),
{
    let t = vec![
        ("\\varepsilon", "\u{03B5}"), ("\\vartheta", "\u{03D1}"), ("\\varphi", "\u{03C6}"),
        ("\\alpha", "\u{03B1}"), ("\\beta", "\u{03B2}"), ("\\gamma", "\u{03B3}"),
        ("\\delta", "\u{03B4}"), ("\\epsilon", "\u{03B5}"), ("\\zeta", "\u{03B6}"),
        ("\\eta", "\u{03B7}"), ("\\theta", "\u{03B8}"), ("\\iota", "\u{03B9}"),
        ("\\kappa", "\u{03BA}"), ("\\lambda", "\u{03BB}"), ("\\mu", "\u{03BC}"),
        ("\\nu", "\u{03BD}"), ("\\xi", "\u{03BE}"), ("\\pi", "\u{03C0}"),
        ("\\rho", "\u{03C1}"), ("\\sigma", "\u{03C3}"), ("\\tau", "\u{03C4}"),
        ("\\upsilon", "\u{03C5}"), ("\\phi", "\u{03C6}"), ("\\chi", "\u{03C7}"),
        ("\\psi", "\u{03C8}"), ("\\omega", "\u{03C9}"),
    ];
    assert(t@ =~= greek_lower());
    t
}

/// Upper-case greek letters.
pub open spec fn greek_upper() -> Seq<(&'static str, &'static str)> {
    seq![
        ("\\Gamma", "\u{0393}"), ("\\Delta", "\u{0394}"), ("\\Theta", "\u{0398}"),
        ("\\Lambda", "\u{039B}"), ("\\Xi", "\u{039E}"), ("\\Pi", "\u{03A0}"),
        ("\\Sigma", "\u{03A3}"), ("\\Upsilon", "\u{03A5}"), ("\\Phi", "\u{03A6}"),
        ("\\Psi", "\u{03A8}"), ("\\Omega", "\u{03A9}"),
    ]
}

fn greek_upper_exec() -> (t: Vec<(&'static str, &'static str)>)
    ensures
        t@ == greek_upper(),
{
    let t = vec![
        ("\\Gamma", "\u{0393}"), ("\\Delta", "\u{0394}"), ("\\Theta", "\u{0398}"),
        ("\\Lambda", "\u{039B}"), ("\\Xi", "\u{039E}"), ("\\Pi", "\u{03A0}"),
        ("\\Sigma", "\u{03A3}"), ("\\Upsilon", "\u{03A5}"), ("\\Phi", "\u{03A6}"),
        ("\\Psi", "\u{03A8}"), ("\\Omega", "\u{03A9}"),
    ];
    assert(t@ =~= greek_upper());
    t
}

/// Relations, logic and other symbols.
pub open spec fn symbols() -> Seq<(&'static str, &'static str)> {
    seq![
        ("\\emptyset", "\u{2205}"), ("\\parallel", "\u{2225}"), ("\\partial", "\u{2202}"),
        ("\\ddagger", "\u{2021}"), ("\\forall", "\u{2200}"), ("\\exists", "\u{2203}"),
        ("\\approx", "\u{2248}"), ("\\bullet", "\u{2022}"), ("\\dagger", "\u{2020}"),
        ("\\otimes", "\u{2297}"), ("\\oplus", "\u{2295}"), ("\\supset", "\u{2283}"),
        ("\\subset", "\u{2282}"), ("\\propto", "\u{221D}"), ("\\infty", "\u{221E}"),
        ("\\nabla", "\u{2207}"), ("\\notin", "\u{2209}"), ("\\equiv", "\u{2261}"),
        ("\\wedge", "\u{2227}"), ("\\prime", "\u{2032}"), ("\\times", "\u{00D7}"),
        ("\\hbar", "\u{210F}"), ("\\cdot", "\u{00B7}"), ("\\circ", "\u{2218}"),
        ("\\star", "\u{22C6}"), ("\\perp", "\u{22A5}"), ("\\ell", "\u{2113}"),
        ("\\neg", "\u{00AC}"), ("\\vee", "\u{2228}"), ("\\cup", "\u{222A}"),
        ("\\cap", "\u{2229}"), ("\\neq", "\u{2260}"), ("\\leq", "\u{2264}"),
        ("\\geq", "\u{2265}"), ("\\sim", "\u{223C}"), ("\\in", "\u{2208}"),
        ("\\ll", "\u{226A}"), ("\\gg", "\u{226B}"), ("\\pm", "\u{00B1}"),
        ("\\mp", "\u{2213}"),
    ]
}

fn symbols_exec() -> (t: Vec<(&'static str, &'static str)>)
    ensures
        t@ == symbols(),
{
    let t = vec![
        ("\\emptyset", "\u{2205}"), ("\\parallel", "\u{2225}"), ("\\partial", "\u{2202}"),
        ("\\ddagger", "\u{2021}"), ("\\forall", "\u{2200}"), ("\\exists", "\u{2203}"),
        ("\\approx", "\u{2248}"), ("\\bullet", "\u{2022}"), ("\\dagger", "\u{2020}"),
        ("\\otimes", "\u{2297}"), ("\\oplus", "\u{2295}"), ("\\supset", "\u{2283}"),
        ("\\subset", "\u{2282}"), ("\\propto", "\u{221D}"), ("\\infty", "\u{221E}"),
        ("\\nabla", "\u{2207}"), ("\\notin", "\u{2209}"), ("\\equiv", "\u{2261}"),
        ("\\wedge", "\u{2227}"), ("\\prime", "\u{2032}"), ("\\times", "\u{00D7}"),
        ("\\hbar", "\u{210F}"), ("\\cdot", "\u{00B7}"), ("\\circ", "\u{2218}"),
        ("\\star", "\u{22C6}"), ("\\perp", "\u{22A5}"), ("\\ell", "\u{2113}"),
        ("\\neg", "\u{00AC}"), ("\\vee", "\u{2228}"), ("\\cup", "\u{222A}"),
        ("\\cap", "\u{2229}"), ("\\neq", "\u{2260}"), ("\\leq", "\u{2264}"),
        ("\\geq", "\u{2265}"), ("\\sim", "\u{223C}"), ("\\in", "\u{2208}"),
        ("\\ll", "\u{226A}"), ("\\gg", "\u{226B}"), ("\\pm", "\u{00B1}"),
        ("\\mp", "\u{2213}"),
    ];
    assert(t@ =~= symbols());
    t
}

/// Big operators.
pub open spec fn operators() -> Seq<(&'static str, &'static str)> {
    seq![
        ("\\oint", "\u{222E}"), ("\\prod", "\u{220F}"), ("\\int", "\u{222B}"),
        ("\\sum", "\u{2211}"), ("\\lim", "lim"),
    ]
}

fn operators_exec() -> (t: Vec<(&'static str, &'static str)>)
    ensures
        t@ == operators(),
{
    let t = vec![
        ("\\oint", "\u{222E}"), ("\\prod", "\u{220F}"), ("\\int", "\u{222B}"),
        ("\\sum", "\u{2211}"), ("\\lim", "lim"),
    ];
    assert(t@ =~= operators());
    t
}

/// Arrows.
pub open spec fn arrows() -> Seq<(&'static str, &'static str)> {
    seq![
        ("\\Leftrightarrow", "\u{21D4}"), ("\\leftrightarrow", "\u{2194}"), ("\\Rightarrow", "\u{21D2}"),
        ("\\rightarrow", "\u{2192}"), ("\\Leftarrow", "\u{21D0}"), ("\\leftarrow", "\u{2190}"),
        ("\\downarrow", "\u{2193}"), ("\\uparrow", "\u{2191}"), ("\\mapsto", "\u{21A6}"),
        ("\\to", "\u{2192}"),
    ]
}

fn arrows_exec() -> (t: Vec<(&'static str, &'static str)>)
    ensures
        t@ == arrows(),
{
    let t = vec![
        ("\\Leftrightarrow", "\u{21D4}"), ("\\leftrightarrow", "\u{2194}"), ("\\Rightarrow", "\u{21D2}"),
        ("\\rightarrow", "\u{2192}"), ("\\Leftarrow", "\u{21D0}"), ("\\leftarrow", "\u{2190}"),
        ("\\downarrow", "\u{2193}"), ("\\uparrow", "\u{2191}"), ("\\mapsto", "\u{21A6}"),
        ("\\to", "\u{2192}"),
    ];
    assert(t@ =~= arrows());
    t
}

/// Angle brackets and escaped braces.
pub open spec fn delimiters() -> Seq<(&'static str, &'static str)> {
    seq![
        ("\\langle", "\u{27E8}"), ("\\rangle", "\u{27E9}"), ("\\{", "{"),
        ("\\}", "}"),
    ]
}

fn delimiters_exec() -> (t: Vec<(&'static str, &'static str)>)
    ensures
        t@ == delimiters(),
{
    let t = vec![
        ("\\langle", "\u{27E8}"), ("\\rangle", "\u{27E9}"), ("\\{", "{"),
        ("\\}", "}"),
    ];
    assert(t@ =~= delimiters());
    t
}

/// The symbol table: every command that names a single symbol, with its
/// Unicode replacement.
pub open spec fn symbol_table_spec() -> Seq<(&'static str, &'static str)> {
    greek_lower() + greek_upper() + symbols() + operators() + arrows() + delimiters()
}

/// The symbol table, as pairs of character vectors.
pub fn symbol_table() -> (t: Vec<(Vec<char>, Vec<char>)>)
    ensures
        t@.len() == symbol_table_spec().len(),
        forall|k: int|
            0 <= k < t@.len() ==> (#[trigger] t@[k]).0@ == symbol_table_spec()[k].0@
                && t@[k].1@ == symbol_table_spec()[k].1@,
{
    let mut all = greek_lower_exec();
    let mut part = greek_upper_exec();
    all.append(&mut part);
    let mut part = symbols_exec();
    all.append(&mut part);
    let mut part = operators_exec();
    all.append(&mut part);
    let mut part = arrows_exec();
    all.append(&mut part);
    let mut part = delimiters_exec();
    all.append(&mut part);
    assert(all@ =~= symbol_table_spec());
    let mut t: Vec<(Vec<char>, Vec<char>)> = Vec::new();
    let mut k: usize = 0;
    while k < all.len()
        invariant
            k <= all.len(),
            all@ == symbol_table_spec(),
            t@.len() == k,
            forall|j: int|
                0 <= j < k ==> (#[trigger] t@[j]).0@ == symbol_table_spec()[j].0@
                    && t@[j].1@ == symbol_table_spec()[j].1@,
        decreases all.len() - k,
    {
        let (cmd, repl) = all[k];
        t.push((chars_of(cmd), chars_of(repl)));
        k = k + 1;
    }
    t
}

/// The command `cmd` stands at position `i` of `s` as a whole word: when it
/// ends in a letter, no letter follows it.
pub open spec fn cmd_matches(s: Seq<char>, i: int, cmd: Seq<char>) -> bool {
    &&& cmd.len() > 0
    &&& has_at(s, i, cmd)
    &&& !(is_ascii_alpha(cmd.last()) && i + cmd.len() < s.len() && is_ascii_alpha(
        s[i + cmd.len()],
    ))
}

/// Entry `k` of the symbol table stands at position `i` of `s`.
pub open spec fn entry_matches(s: Seq<char>, i: int, k: int) -> bool {
    cmd_matches(s, i, symbol_table_spec()[k].0@)
}

/// Entry `k` is the longest entry that stands at `i`, and the first of the
/// table among entries of that length.
pub open spec fn is_best_entry(s: Seq<char>, i: int, k: int) -> bool {
    let t = symbol_table_spec();
    &&& 0 <= k < t.len()
    &&& entry_matches(s, i, k)
    &&& forall|j: int|
        0 <= j < t.len() && #[trigger] entry_matches(s, i, j) ==> t[j].0@.len() <= t[k].0@.len()
            && (j < k ==> t[j].0@.len() < t[k].0@.len())
}

/// At most one entry of the symbol table is the best match at a position:
/// the replacement of a command is well defined.
pub proof fn lemma_best_entry_unique(s: Seq<char>, i: int, k1: int, k2: int)
    requires
        is_best_entry(s, i, k1),
        is_best_entry(s, i, k2),
    ensures
        k1 == k2,
{
    assert(entry_matches(s, i, k1) && entry_matches(s, i, k2));
}

/// The next character at or after `j` that is not ASCII white space is a
/// letter or a backslash.
pub open spec fn letter_follows(s: Seq<char>, j: int) -> bool
    decreases s.len() - j,
{
    if j < 0 || j >= s.len() {
        false
    } else if is_ascii_ws(s[j]) {
        letter_follows(s, j + 1)
    } else {
        is_ascii_alpha(s[j]) || s[j] == '\\'
    }
}

/// Where symbol replacement resumes after entry `k` matched at `i`: the
/// space that ends a command is dropped when a letter or command follows.
pub open spec fn after_symbol(s: Seq<char>, i: int, k: int) -> int {
    let end = i + symbol_table_spec()[k].0@.len();
    if end < s.len() && s[end] == ' ' && letter_follows(s, end + 1) {
        end + 1
    } else {
        end
    }
}

/// Symbol replacement applied to `s[i..]`.
pub open spec fn symbols_from(s: Seq<char>, i: int) -> Seq<char>
    decreases s.len() - i,
{
    if i < 0 || i >= s.len() {
        Seq::empty()
    } else if s[i] == '\\' {
        if exists|k: int| is_best_entry(s, i, k) {
            let k = choose|k: int| is_best_entry(s, i, k);
            let next = after_symbol(s, i, k);
            if i < next {
                symbol_table_spec()[k].1@ + symbols_from(s, next)
            } else {
                Seq::empty()
            }
        } else {
            seq!['\\'] + symbols_from(s, i + 1)
        }
    } else {
        seq![s[i]] + symbols_from(s, i + 1)
    }
}

fn cmd_matches_exec(s: &Vec<char>, i: usize, cmd: &Vec<char>) -> (b: bool)
    ensures
        b == cmd_matches(s@, i as int, cmd@),
{
    if cmd.len() == 0 {
        return false;
    }
    let at = vec_at(s, i, cmd);
    if !at {
        return false;
    }
    let n = s.len();
    assert(i + cmd@.len() <= n);
    let end = i + cmd.len();
    !(ascii_alpha(cmd[cmd.len() - 1]) && end < s.len() && ascii_alpha(s[end]))
}

/// The best entry of the table at `i`, if any entry stands there.
fn best_entry(s: &Vec<char>, i: usize, t: &Vec<(Vec<char>, Vec<char>)>) -> (r: Option<usize>)
    requires
        t@.len() == symbol_table_spec().len(),
        forall|k: int|
            0 <= k < t@.len() ==> (#[trigger] t@[k]).0@ == symbol_table_spec()[k].0@
                && t@[k].1@ == symbol_table_spec()[k].1@,
    ensures
        r matches Some(k) ==> is_best_entry(s@, i as int, k as int),
        r is None ==> forall|k: int| 0 <= k < t@.len() ==> !entry_matches(s@, i as int, k),
{
    let ghost tbl = symbol_table_spec();
    let mut best: Option<usize> = None;
    let mut k: usize = 0;
    while k < t.len()
        invariant
            k <= t.len(),
            tbl == symbol_table_spec(),
            t@.len() == tbl.len(),
            forall|j: int|
                0 <= j < t@.len() ==> (#[trigger] t@[j]).0@ == tbl[j].0@ && t@[j].1@ == tbl[j].1@,
            best matches Some(b) ==> b < k && entry_matches(s@, i as int, b as int) && forall|j: int|
                0 <= j < k && #[trigger] entry_matches(s@, i as int, j) ==> tbl[j].0@.len()
                    <= tbl[b as int].0@.len() && (j < b ==> tbl[j].0@.len() < tbl[b as int].0@.len()),
            best is None ==> forall|j: int| 0 <= j < k ==> !#[trigger] entry_matches(s@, i as int, j),
        decreases t.len() - k,
    {
        let m = cmd_matches_exec(s, i, &t[k].0);
        assert(m == entry_matches(s@, i as int, k as int));
        if m {
            match best {
                Some(b) => {
                    if t[k].0.len() > t[b].0.len() {
                        best = Some(k);
                    }
                },
                None => {
                    best = Some(k);
                },
            }
        }
        k = k + 1;
    }
    best
}

/// Replaces every table command by its symbol (`replace_symbols`), keeping
/// the longest command that stands at each backslash.
pub fn replace_symbols(input: &Vec<char>) -> (r: Vec<char>)
    ensures
        r@ == symbols_from(input@, 0),
{
    let t = symbol_table();
    let mut out: Vec<char> = Vec::new();
    let mut i: usize = 0;
    while i < input.len()
        invariant
            i <= input.len(),
            t@.len() == symbol_table_spec().len(),
            forall|k: int|
                0 <= k < t@.len() ==> (#[trigger] t@[k]).0@ == symbol_table_spec()[k].0@
                    && t@[k].1@ == symbol_table_spec()[k].1@,
            out@ + symbols_from(input@, i as int) == symbols_from(input@, 0),
        decreases input.len() - i,
    {
        let ghost before = out@;
        let ghost s = input@;
        if input[i] == '\\' {
            match best_entry(input, i, &t) {
                Some(k) => {
                    proof {
                        let kk = choose|kk: int| is_best_entry(s, i as int, kk);
                        lemma_best_entry_unique(s, i as int, k as int, kk);
                    }
                    let end = i + t[k].0.len();
                    let mut next = end;
                    if end < input.len() && input[end] == ' ' && letter_follows_exec(input, end + 1) {
                        next = end + 1;
                    }
                    push_all(&mut out, &t[k].1);
                    assert(next == after_symbol(s, i as int, k as int));
                    i = next;
                    assert(before + (symbol_table_spec()[k as int].1@ + symbols_from(s, i as int))
                        =~= out@ + symbols_from(s, i as int));
                },
                None => {
                    assert(!exists|k: int| is_best_entry(s, i as int, k));
                    out.push('\\');
                    i = i + 1;
                    assert(before + (seq!['\\'] + symbols_from(s, i as int)) =~= out@
                        + symbols_from(s, i as int));
                },
            }
        } else {
            out.push(input[i]);
            i = i + 1;
            assert(before + (seq![s[i - 1]] + symbols_from(s, i as int)) =~= out@ + symbols_from(
                s,
                i as int,
            ));
        }
    }
    assert(out@ + symbols_from(input@, i as int) =~= out@);
    out
}

fn letter_follows_exec(s: &Vec<char>, j: usize) -> (b: bool)
    ensures
        b == letter_follows(s@, j as int),
{
    let mut k = j;
    while k < s.len()
        invariant
            j <= k,
            letter_follows(s@, j as int) == letter_follows(s@, k as int),
        decreases s.len() - k,
    {
        let c = s[k];
        if !(c == ' ' || c == '\t' || c == '\n' || c == '\u{c}' || c == '\r') {
            return ascii_alpha(c) || c == '\\';
        }
        k = k + 1;
    }
    false
}

// ---------------------------------------------------------------------------
// Brace groups and script arguments
// ---------------------------------------------------------------------------

/// Scanning `s` from `j` at nesting depth `depth`: the position just after
/// the `}` that closes the group.
pub open spec fn brace_scan(s: Seq<char>, j: int, depth: int) -> Option<int>
    decreases s.len() - j,
{
    if j < 0 || j >= s.len() {
        None
    } else if s[j] == '{' {
        brace_scan(s, j + 1, depth + 1)
    } else if s[j] == '}' {
        if depth == 1 {
            Some(j + 1)
        } else {
            brace_scan(s, j + 1, depth - 1)
        }
    } else {
        brace_scan(s, j + 1, depth)
    }
}

/// The position just after the `}` matching the `{` at `start`, if `start`
/// holds a `{` and the group is closed.
pub open spec fn brace_close(s: Seq<char>, start: int) -> Option<int> {
    if 0 <= start < s.len() && s[start] == '{' {
        brace_scan(s, start + 1, 1)
    } else {
        None
    }
}

/// Where the brace scan succeeds, it ends after its start, within the
/// text, just past a closing brace.
pub proof fn lemma_brace_scan(s: Seq<char>, j: int, depth: int)
    ensures
        brace_scan(s, j, depth) matches Some(e) ==> j < e <= s.len() && s[e - 1] == '}',
    decreases s.len() - j,
{
    if 0 <= j < s.len() {
        if s[j] == '{' {
            lemma_brace_scan(s, j + 1, depth + 1);
        } else if s[j] == '}' {
            if depth != 1 {
                lemma_brace_scan(s, j + 1, depth - 1);
            }
        } else {
            lemma_brace_scan(s, j + 1, depth);
        }
    }
}

/// `brace_close(s, start)`, with its bounds.
pub fn brace_close_exec(s: &Vec<char>, start: usize) -> (r: Option<usize>)
    ensures
        r matches Some(e) ==> brace_close(s@, start as int) == Some(e as int) && start + 2 <= e
            <= s.len(),
        r is None ==> brace_close(s@, start as int) is None,
{
    if start >= s.len() || s[start] != '{' {
        return None;
    }
    proof {
        lemma_brace_scan(s@, start + 1, 1);
    }
    let mut depth: usize = 1;
    let mut j = start + 1;
    while j < s.len()
        invariant
            start < j <= s.len(),
            1 <= depth <= j - start,
            brace_close(s@, start as int) == brace_scan(s@, j as int, depth as int),
        decreases s.len() - j,
    {
        proof {
            lemma_brace_scan(s@, j as int, depth as int);
        }
        if s[j] == '{' {
            depth = depth + 1;
        } else if s[j] == '}' {
            if depth == 1 {
                return Some(j + 1);
            }
            depth = depth - 1;
        }
        j = j + 1;
    }
    None
}

/// The content of the brace group that starts at character `start` of `s`,
/// with the character position just after its closing brace.
pub fn find_brace_group(s: &str, start: usize) -> (r: Option<(String, usize)>)
    ensures
        r matches Some((inner, e)) ==> brace_close(s@, start as int) == Some(e as int)
            && inner@ == s@.subrange(start + 1, e - 1),
        r is None ==> brace_close(s@, start as int) is None,
{
    let v = chars_of(s);
    match brace_close_exec(&v, start) {
        Some(e) => {
            let inner = copy_range(&v, start + 1, e - 1);
            Some((string_of(&inner), e))
        },
        None => None,
    }
}

/// The end of the run of ASCII letters that starts at `j`.
pub open spec fn alpha_run(s: Seq<char>, j: int) -> int
    decreases s.len() - j,
{
    if j < 0 || j >= s.len() || !is_ascii_alpha(s[j]) {
        j
    } else {
        alpha_run(s, j + 1)
    }
}

/// The argument of a `^` or `_` whose argument starts at `pos`, as
/// `(content start, content end, resume position)`: a brace group, a
/// command name, or one character.
pub open spec fn script_arg(s: Seq<char>, pos: int) -> (int, int, int) {
    if pos >= s.len() {
        (pos, pos, pos)
    } else if s[pos] == '{' && brace_close(s, pos) is Some {
        let e = brace_close(s, pos).unwrap();
        (pos + 1, e - 1, e)
    } else if s[pos] == '\\' {
        let end0 = alpha_run(s, pos + 1);
        let end = if end0 == pos + 1 && end0 < s.len() {
            end0 + 1
        } else {
            end0
        };
        (pos, end, end)
    } else {
        (pos, pos + 1, pos + 1)
    }
}

/// `script_arg(s, pos)` (`read_script_arg`).
pub fn read_script_arg(s: &Vec<char>, pos: usize) -> (r: (usize, usize, usize))
    requires
        0 < pos,
    ensures
        (r.0 as int, r.1 as int, r.2 as int) == script_arg(s@, pos as int),
        pos <= r.0 <= r.1 <= s.len() || pos >= s.len(),
        r.2 <= s.len() || pos >= s.len(),
        pos < s.len() ==> pos < r.2,
{
    if pos >= s.len() {
        return (pos, pos, pos);
    }
    if s[pos] == '{' {
        if let Some(e) = brace_close_exec(s, pos) {
            return (pos + 1, e - 1, e);
        }
    }
    if s[pos] == '\\' {
        let mut end = pos + 1;
        while end < s.len() && ascii_alpha(s[end])
            invariant
                pos < end <= s.len(),
                alpha_run(s@, pos + 1) == alpha_run(s@, end as int),
            decreases s.len() - end,
        {
            end = end + 1;
        }
        if end == pos + 1 && end < s.len() {
            end = end + 1;
        }
        return (pos, end, end);
    }
    (pos, pos + 1, pos + 1)
}

// ---------------------------------------------------------------------------
// Accents and font commands
// ---------------------------------------------------------------------------

/// Accent commands with the combining character that follows the accented
/// text.
pub open spec fn accents() -> Seq<(&'static str, char)> {
    seq![
        ("\\tilde", '\u{0303}'), ("\\hat", '\u{0302}'), ("\\vec", '\u{20D7}'),
        ("\\bar", '\u{0304}'), ("\\dot", '\u{0307}'),
    ]
}

fn accents_exec() -> (t: Vec<(&'static str, char)>)
    ensures
        t@ == accents(),
{
    let t = vec![
        ("\\tilde", '\u{0303}'), ("\\hat", '\u{0302}'), ("\\vec", '\u{20D7}'),
        ("\\bar", '\u{0304}'), ("\\dot", '\u{0307}'),
    ];
    assert(t@ =~= accents());
    t
}

/// The accent command `cmd` stands at `i`, not followed by a letter.
pub open spec fn accent_ok(s: Seq<char>, i: int, cmd: Seq<char>) -> bool {
    has_at(s, i, cmd) && (i + cmd.len() == s.len() || !is_ascii_alpha(s[i + cmd.len()]))
}

/// The first accent of the list, from entry `k` on, that stands at `i`:
/// its command length and combining character.
pub open spec fn accent_from(s: Seq<char>, i: int, k: int) -> Option<(int, char)>
    decreases accents().len() - k,
{
    if k < 0 || k >= accents().len() {
        None
    } else if accent_ok(s, i, accents()[k].0@) {
        Some((accents()[k].0@.len() as int, accents()[k].1))
    } else {
        accent_from(s, i, k + 1)
    }
}

/// The accent that stands at `i` (`match_accent`).
pub fn match_accent(s: &Vec<char>, i: usize) -> (r: Option<(usize, char)>)
    ensures
        r matches Some((l, c)) ==> accent_from(s@, i as int, 0) == Some((l as int, c))
            && i + l <= s.len(),
        r is None ==> accent_from(s@, i as int, 0) is None,
{
    let t = accents_exec();
    let mut k: usize = 0;
    while k < t.len()
        invariant
            t@ == accents(),
            k <= t.len(),
            accent_from(s@, i as int, 0) == accent_from(s@, i as int, k as int),
        decreases t.len() - k,
    {
        let (cmd, comb) = t[k];
        let cv = chars_of(cmd);
        if vec_at(s, i, &cv) {
            let n = s.len();
            assert(i + cv@.len() <= n);
            let end = i + cv.len();
            if end == s.len() || !ascii_alpha(s[end]) {
                return Some((cv.len(), comb));
            }
        }
        k = k + 1;
    }
    None
}

/// Font and text commands whose argument is kept as it is.
pub open spec fn text_commands() -> Seq<&'static str> {
    seq![
        "\\operatorname", "\\boldsymbol", "\\mathrm", "\\mathbf", "\\mathcal", "\\mathit",
        "\\text",
    ]
}

fn text_commands_exec() -> (t: Vec<&'static str>)
    ensures
        t@ == text_commands(),
{
    let t = vec![
        "\\operatorname", "\\boldsymbol", "\\mathrm", "\\mathbf", "\\mathcal", "\\mathit",
        "\\text",
    ];
    assert(t@ =~= text_commands());
    t
}

/// The text command `cmd` stands at `i`, directly followed by `{`.
pub open spec fn text_ok(s: Seq<char>, i: int, cmd: Seq<char>) -> bool {
    has_at(s, i, cmd) && i + cmd.len() < s.len() && s[i + cmd.len()] == '{'
}

/// The length of the first text command of the list, from entry `k` on,
/// that stands at `i`.
pub open spec fn text_from(s: Seq<char>, i: int, k: int) -> Option<int>
    decreases text_commands().len() - k,
{
    if k < 0 || k >= text_commands().len() {
        None
    } else if text_ok(s, i, text_commands()[k]@) {
        Some(text_commands()[k]@.len() as int)
    } else {
        text_from(s, i, k + 1)
    }
}

/// The length of the text command at `i` (`match_text_command`).
pub fn match_text_command(s: &Vec<char>, i: usize) -> (r: Option<usize>)
    ensures
        r matches Some(l) ==> text_from(s@, i as int, 0) == Some(l as int) && i + l < s.len(),
        r is None ==> text_from(s@, i as int, 0) is None,
{
    let t = text_commands_exec();
    let mut k: usize = 0;
    while k < t.len()
        invariant
            t@ == text_commands(),
            k <= t.len(),
            text_from(s@, i as int, 0) == text_from(s@, i as int, k as int),
        decreases t.len() - k,
    {
        let cv = chars_of(t[k]);
        if vec_at(s, i, &cv) {
            let n = s.len();
            assert(i + cv@.len() <= n);
            let end = i + cv.len();
            if end < s.len() && s[end] == '{' {
                return Some(cv.len());
            }
        }
        k = k + 1;
    }
    None
}

// ---------------------------------------------------------------------------
// Super- and subscripts
// ---------------------------------------------------------------------------

/// The superscript form of `ch`, where Unicode has one.
pub open spec fn superscript_of(ch: char) -> Option<char> {
    match ch {
        '0' => Some('\u{2070}'),
        '1' => Some('\u{00B9}'),
        '2' => Some('\u{00B2}'),
        '3' => Some('\u{00B3}'),
        '4' => Some('\u{2074}'),
        '5' => Some('\u{2075}'),
        '6' => Some('\u{2076}'),
        '7' => Some('\u{2077}'),
        '8' => Some('\u{2078}'),
        '9' => Some('\u{2079}'),
        'n' => Some('\u{207F}'),
        'i' => Some('\u{2071}'),
        '+' => Some('\u{207A}'),
        '-' => Some('\u{207B}'),
        '=' => Some('\u{207C}'),
        '(' => Some('\u{207D}'),
        ')' => Some('\u{207E}'),
        _ => None,
    }
}

/// The subscript form of `ch`, where Unicode has one.
pub open spec fn subscript_of(ch: char) -> Option<char> {
    match ch {
        '0' => Some('\u{2080}'),
        '1' => Some('\u{2081}'),
        '2' => Some('\u{2082}'),
        '3' => Some('\u{2083}'),
        '4' => Some('\u{2084}'),
        '5' => Some('\u{2085}'),
        '6' => Some('\u{2086}'),
        '7' => Some('\u{2087}'),
        '8' => Some('\u{2088}'),
        '9' => Some('\u{2089}'),
        'a' => Some('\u{2090}'),
        'e' => Some('\u{2091}'),
        'i' => Some('\u{1D62}'),
        'n' => Some('\u{2099}'),
        'o' => Some('\u{2092}'),
        'r' => Some('\u{1D63}'),
        's' => Some('\u{209B}'),
        'x' => Some('\u{2093}'),
        '+' => Some('\u{208A}'),
        '-' => Some('\u{208B}'),
        '=' => Some('\u{208C}'),
        '(' => Some('\u{208D}'),
        ')' => Some('\u{208E}'),
        _ => None,
    }
}

pub fn superscript_char(ch: char) -> (r: Option<char>)
    ensures
        r == superscript_of(ch),
{
    match ch {
        '0' => Some('\u{2070}'),
        '1' => Some('\u{00B9}'),
        '2' => Some('\u{00B2}'),
        '3' => Some('\u{00B3}'),
        '4' => Some('\u{2074}'),
        '5' => Some('\u{2075}'),
        '6' => Some('\u{2076}'),
        '7' => Some('\u{2077}'),
        '8' => Some('\u{2078}'),
        '9' => Some('\u{2079}'),
        'n' => Some('\u{207F}'),
        'i' => Some('\u{2071}'),
        '+' => Some('\u{207A}'),
        '-' => Some('\u{207B}'),
        '=' => Some('\u{207C}'),
        '(' => Some('\u{207D}'),
        ')' => Some('\u{207E}'),
        _ => None,
    }
}

pub fn subscript_char(ch: char) -> (r: Option<char>)
    ensures
        r == subscript_of(ch),
{
    match ch {
        '0' => Some('\u{2080}'),
        '1' => Some('\u{2081}'),
        '2' => Some('\u{2082}'),
        '3' => Some('\u{2083}'),
        '4' => Some('\u{2084}'),
        '5' => Some('\u{2085}'),
        '6' => Some('\u{2086}'),
        '7' => Some('\u{2087}'),
        '8' => Some('\u{2088}'),
        '9' => Some('\u{2089}'),
        'a' => Some('\u{2090}'),
        'e' => Some('\u{2091}'),
        'i' => Some('\u{1D62}'),
        'n' => Some('\u{2099}'),
        'o' => Some('\u{2092}'),
        'r' => Some('\u{1D63}'),
        's' => Some('\u{209B}'),
        'x' => Some('\u{2093}'),
        '+' => Some('\u{208A}'),
        '-' => Some('\u{208B}'),
        '=' => Some('\u{208C}'),
        '(' => Some('\u{208D}'),
        ')' => Some('\u{208E}'),
        _ => None,
    }
}

pub open spec fn script_of(ch: char, sup: bool) -> Option<char> {
    if sup {
        superscript_of(ch)
    } else {
        subscript_of(ch)
    }
}

/// Every character of `x` has a script form.
pub open spec fn all_scriptable(x: Seq<char>, sup: bool) -> bool {
    forall|k: int| 0 <= k < x.len() ==> (#[trigger] script_of(x[k], sup)) is Some
}

/// `x` in script form: each character replaced by its script form when
/// all of them have one, otherwise `^(x)` or `_(x)`.
pub open spec fn scripted(x: Seq<char>, sup: bool) -> Seq<char> {
    if all_scriptable(x, sup) {
        Seq::new(x.len(), |k: int| script_of(x[k], sup).unwrap())
    } else {
        seq![if sup { '^' } else { '_' }, '('] + x + seq![')']
    }
}

/// One token of LaTeX: a single character, or a backslash command made of
/// letters.
pub open spec fn single_token(x: Seq<char>) -> bool {
    x.len() == 1 || (x.len() >= 2 && x[0] == '\\' && forall|k: int|
        1 <= k < x.len() ==> is_ascii_alpha(#[trigger] x[k]))
}

/// A braced script `^{x}` or `_{x}` in script form: each character raised
/// or lowered when all of them can be; otherwise a single token stays bare
/// (`^\infty` for `^{\infty}`; a command is followed by a space, which ends
/// it as its brace did), a compound expression keeps its braces (`^{-x²}`
/// for `^{-x^2}`), and anything else is put in parentheses.
pub open spec fn braced_scripted(x: Seq<char>, sup: bool) -> Seq<char> {
    let mark = if sup {
        '^'
    } else {
        '_'
    };
    if all_scriptable(x, sup) {
        scripted(x, sup)
    } else if single_token(x) {
        if x.len() >= 2 {
            seq![mark] + x + seq![' ']
        } else {
            seq![mark] + x
        }
    } else if complex(x) {
        seq![mark, '{'] + x + seq!['}']
    } else {
        scripted(x, sup)
    }
}

fn is_single_token(x: &Vec<char>) -> (b: bool)
    ensures
        b == single_token(x@),
{
    if x.len() == 1 {
        return true;
    }
    if x.len() < 2 || x[0] != '\\' {
        return false;
    }
    let mut k: usize = 1;
    while k < x.len()
        invariant
            1 <= k <= x.len(),
            x.len() >= 2,
            x@[0] == '\\',
            forall|j: int| 1 <= j < k ==> is_ascii_alpha(#[trigger] x@[j]),
        decreases x.len() - k,
    {
        if !ascii_alpha(x[k]) {
            return false;
        }
        k = k + 1;
    }
    true
}

/// `braced_scripted(x, sup)`.
fn to_braced_script(x: &Vec<char>, sup: bool) -> (r: Vec<char>)
    ensures
        r@ == braced_scripted(x@, sup),
{
    let r = to_script(x, sup);
    let mark = if sup {
        '^'
    } else {
        '_'
    };
    if r.len() > 0 && r[0] == mark && !all_scriptable_exec(x, sup) {
        if is_single_token(x) {
            let mut out: Vec<char> = Vec::new();
            out.push(mark);
            push_all(&mut out, x);
            if x.len() >= 2 {
                out.push(' ');
            }
            return out;
        }
        if is_complex(x) {
            let mut out: Vec<char> = Vec::new();
            out.push(mark);
            out.push('{');
            push_all(&mut out, x);
            out.push('}');
            return out;
        }
    }
    if !all_scriptable_exec(x, sup) {
        proof {
            if single_token(x@) || complex(x@) {
                assert(r@ == scripted(x@, sup));
                assert(r@[0] == mark);
            }
        }
    }
    r
}

fn all_scriptable_exec(x: &Vec<char>, sup: bool) -> (b: bool)
    ensures
        b == all_scriptable(x@, sup),
{
    let mut k: usize = 0;
    while k < x.len()
        invariant
            k <= x.len(),
            forall|j: int| 0 <= j < k ==> (#[trigger] script_of(x@[j], sup)) is Some,
        decreases x.len() - k,
    {
        let m = if sup { superscript_char(x[k]) } else { subscript_char(x[k]) };
        if m.is_none() {
            assert(script_of(x@[k as int], sup) is None);
            return false;
        }
        k = k + 1;
    }
    true
}

fn to_script(x: &Vec<char>, sup: bool) -> (r: Vec<char>)
    ensures
        r@ == scripted(x@, sup),
{
    let mut out: Vec<char> = Vec::new();
    let mut k: usize = 0;
    while k < x.len()
        invariant
            k <= x.len(),
            out@.len() == k,
            forall|j: int| 0 <= j < k ==> (#[trigger] script_of(x@[j], sup)) is Some
                && out@[j] == script_of(x@[j], sup).unwrap(),
        decreases x.len() - k,
    {
        let m = if sup { superscript_char(x[k]) } else { subscript_char(x[k]) };
        match m {
            Some(c) => out.push(c),
            None => {
                assert(script_of(x@[k as int], sup) is None);
                assert(!all_scriptable(x@, sup));
                let mut r: Vec<char> = Vec::new();
                r.push(if sup { '^' } else { '_' });
                r.push('(');
                push_all(&mut r, x);
                r.push(')');
                assert(r@ =~= scripted(x@, sup));
                return r;
            },
        }
        k = k + 1;
    }
    assert(out@ =~= scripted(x@, sup));
    out
}

/// `to_superscript`: `x` with every character raised, or `^(x)`.
pub fn to_superscript(x: &Vec<char>) -> (r: Vec<char>)
    ensures
        r@ == scripted(x@, true),
{
    to_script(x, true)
}

/// `to_subscript`: `x` with every character lowered, or `_(x)`.
pub fn to_subscript(x: &Vec<char>) -> (r: Vec<char>)
    ensures
        r@ == scripted(x@, false),
{
    to_script(x, false)
}

// ---------------------------------------------------------------------------
// Parentheses around compound expressions
// ---------------------------------------------------------------------------

pub open spec fn is_operator_char(c: char) -> bool {
    c == '+' || c == '-' || c == '/' || c == '*' || c == '\u{00B1}' || c == '\u{2213}'
}

/// `x` is compound: once trimmed it has more than one character and holds
/// an operator.
pub open spec fn complex(x: Seq<char>) -> bool {
    let t = trim(x);
    t.len() > 1 && exists|k: int| 0 <= k < t.len() && is_operator_char(#[trigger] t[k])
}

pub fn is_complex(x: &Vec<char>) -> (b: bool)
    ensures
        b == complex(x@),
{
    let (a, e) = trim_range(x, 0, x.len());
    assert(x@.subrange(0, x@.len() as int) =~= x@);
    let ghost t = trim(x@);
    if e - a <= 1 {
        return false;
    }
    let mut k = a;
    while k < e
        invariant
            a <= k <= e <= x.len(),
            e - a > 1,
            t == trim(x@),
            t == x@.subrange(a as int, e as int),
            forall|j: int| 0 <= j < k - a ==> !is_operator_char(#[trigger] t[j]),
        decreases e - k,
    {
        let c = x[k];
        if c == '+' || c == '-' || c == '/' || c == '*' || c == '\u{00B1}' || c == '\u{2213}' {
            assert(t[k - a] == c);
            assert(is_operator_char(t[k - a]));
            assert(t.len() > 1);
            return true;
        }
        k = k + 1;
    }
    false
}

/// `x` in parentheses when it is compound.
pub open spec fn parenthesized(x: Seq<char>) -> Seq<char> {
    if complex(x) {
        seq!['('] + x + seq![')']
    } else {
        x
    }
}

fn push_parenthesized(out: &mut Vec<char>, x: &Vec<char>)
    ensures
        final(out)@ == old(out)@ + parenthesized(x@),
{
    if is_complex(x) {
        out.push('(');
        push_all(out, x);
        out.push(')');
        assert(final(out)@ =~= old(out)@ + parenthesized(x@));
    } else {
        push_all(out, x);
    }
}

// ---------------------------------------------------------------------------
// Structural commands
// ---------------------------------------------------------------------------

/// `\frac{num}{den}` at `i`: the ends of its two brace groups.
pub open spec fn frac_groups(s: Seq<char>, i: int) -> Option<(int, int)> {
    if has_at(s, i, "\\frac"@) && !has_at(s, i, "\\fractal"@) {
        match brace_close(s, i + "\\frac"@.len()) {
            Some(e1) => match brace_close(s, e1) {
                Some(e2) => Some((e1, e2)),
                None => None,
            },
            None => None,
        }
    } else {
        None
    }
}

/// `\sqrt{x}` at `i`: the end of its brace group.
pub open spec fn sqrt_group(s: Seq<char>, i: int) -> Option<int> {
    if has_at(s, i, "\\sqrt"@) {
        brace_close(s, i + "\\sqrt"@.len())
    } else {
        None
    }
}

/// An accent command with its group at `i`: where the group starts, the
/// combining character, and where the group ends.
pub open spec fn accent_group(s: Seq<char>, i: int) -> Option<(int, char, int)> {
    match accent_from(s, i, 0) {
        Some((l, c)) => match brace_close(s, i + l) {
            Some(e) => Some((i + l, c, e)),
            None => None,
        },
        None => None,
    }
}

/// A text command with its group at `i`: where the group starts and ends.
pub open spec fn text_group(s: Seq<char>, i: int) -> Option<(int, int)> {
    match text_from(s, i, 0) {
        Some(l) => match brace_close(s, i + l) {
            Some(e) => Some((i + l, e)),
            None => None,
        },
        None => None,
    }
}

/// Structural rewriting of `s[i..]`.
pub open spec fn structural_from(s: Seq<char>, i: int) -> Seq<char>
    decreases s.len() - i, 1int,
{
    if 0 <= i < s.len() {
        let tok = structural_token(s, i);
        if i < tok.1 <= s.len() {
            tok.0 + structural_from(s, tok.1)
        } else {
            Seq::empty()
        }
    } else {
        Seq::empty()
    }
}

/// Structural rewriting of the whole of `s`.
pub open spec fn structural(s: Seq<char>) -> Seq<char> {
    structural_from(s, 0)
}

/// The rewriting of the token at `i` and the position after it.
pub open spec fn structural_token(s: Seq<char>, i: int) -> (Seq<char>, int)
    decreases s.len() - i, 0int,
{
    if !(0 <= i < s.len()) {
        (Seq::empty(), i + 1)
    } else if s[i] == '\\' {
        match frac_groups(s, i) {
            Some((e1, e2)) => {
                let b1 = i + "\\frac"@.len();
                if i < b1 + 1 && b1 + 1 <= e1 - 1 && e1 + 1 <= e2 - 1 && e2 <= s.len() {
                    let num = structural_from(s.subrange(b1 + 1, e1 - 1), 0);
                    let den = structural_from(s.subrange(e1 + 1, e2 - 1), 0);
                    (parenthesized(num) + seq!['/'] + parenthesized(den), e2)
                } else {
                    (seq!['\\'], i + 1)
                }
            },
            None => match sqrt_group(s, i) {
                Some(e) => {
                    let b = i + "\\sqrt"@.len();
                    if i < b + 1 && b + 1 <= e - 1 && e <= s.len() {
                        let inner = structural_from(s.subrange(b + 1, e - 1), 0);
                        (seq!['\u{221A}'] + parenthesized(inner), e)
                    } else {
                        (seq!['\\'], i + 1)
                    }
                },
                None => match accent_group(s, i) {
                    Some((b, comb, e)) => {
                        if i < b + 1 && b + 1 <= e - 1 && e <= s.len() {
                            let inner = structural_from(s.subrange(b + 1, e - 1), 0);
                            (inner.push(comb), e)
                        } else {
                            (seq!['\\'], i + 1)
                        }
                    },
                    None => match text_group(s, i) {
                        Some((b, e)) => {
                            if i < b + 1 && b + 1 <= e - 1 && e <= s.len() {
                                (structural_from(s.subrange(b + 1, e - 1), 0), e)
                            } else {
                                (seq!['\\'], i + 1)
                            }
                        },
                        None => if has_at(s, i, seq!['\\', '\\']) {
                            (seq![' '], i + 2)
                        } else {
                            (seq!['\\'], i + 1)
                        },
                    },
                },
            },
        }
    } else if s[i] == '^' || s[i] == '_' {
        let arg = script_arg(s, i + 1);
        if i + 1 <= arg.0 <= arg.1 <= s.len() && i < arg.2 <= s.len() {
            (if arg.0 > i + 1 {
                braced_scripted(structural_from(s.subrange(arg.0, arg.1), 0), s[i] == '^')
            } else {
                scripted(structural_from(s.subrange(arg.0, arg.1), 0), s[i] == '^')
            }, arg.2)
        } else {
            (Seq::empty(), i + 1)
        }
    } else if s[i] == '&' {
        (seq![' '], i + 1)
    } else {
        (seq![s[i]], i + 1)
    }
}

/// The rewriting of the token at `i`, with the position after it.
fn structural_token_exec(s: &Vec<char>, i: usize) -> (r: (Vec<char>, usize))
    requires
        i < s.len(),
    ensures
        r.0@ == structural_token(s@, i as int).0,
        r.1 == structural_token(s@, i as int).1,
        i < r.1 <= s.len(),
    decreases s.len(), 0int,
{
    let ghost sv = s@;
    let c = s[i];
    if c == '\\' {
        if lit_at(s, i, "\\frac") && !lit_at(s, i, "\\fractal") {
            let b1 = i + chars_of("\\frac").len();
            if let Some(e1) = brace_close_exec(s, b1) {
                if let Some(e2) = brace_close_exec(s, e1) {
                    let num_src = copy_range(s, b1 + 1, e1 - 1);
                    let den_src = copy_range(s, e1 + 1, e2 - 1);
                    let num = process_structural(&num_src);
                    let den = process_structural(&den_src);
                    let mut out: Vec<char> = Vec::new();
                    push_parenthesized(&mut out, &num);
                    out.push('/');
                    push_parenthesized(&mut out, &den);
                    assert(out@ =~= parenthesized(num@) + seq!['/'] + parenthesized(den@));
                    return (out, e2);
                }
            }
        }
        assert(frac_groups(sv, i as int) is None);
        if lit_at(s, i, "\\sqrt") {
            let b = i + chars_of("\\sqrt").len();
            if let Some(e) = brace_close_exec(s, b) {
                let src = copy_range(s, b + 1, e - 1);
                let inner = process_structural(&src);
                let mut out: Vec<char> = Vec::new();
                out.push('\u{221A}');
                push_parenthesized(&mut out, &inner);
                assert(out@ =~= seq!['\u{221A}'] + parenthesized(inner@));
                return (out, e);
            }
        }
        assert(sqrt_group(sv, i as int) is None);
        if let Some((l, comb)) = match_accent(s, i) {
            let b = i + l;
            if let Some(e) = brace_close_exec(s, b) {
                let src = copy_range(s, b + 1, e - 1);
                let mut out = process_structural(&src);
                out.push(comb);
                return (out, e);
            }
        }
        assert(accent_group(sv, i as int) is None);
        if let Some(l) = match_text_command(s, i) {
            let b = i + l;
            if let Some(e) = brace_close_exec(s, b) {
                let src = copy_range(s, b + 1, e - 1);
                let out = process_structural(&src);
                return (out, e);
            }
        }
        assert(text_group(sv, i as int) is None);
        let mut bs: Vec<char> = Vec::new();
        bs.push('\\');
        bs.push('\\');
        if vec_at(s, i, &bs) {
            assert(bs@ =~= seq!['\\', '\\']);
            let mut out: Vec<char> = Vec::new();
            out.push(' ');
            return (out, i + 2);
        }
        assert(bs@ =~= seq!['\\', '\\']);
        let mut out: Vec<char> = Vec::new();
        out.push('\\');
        return (out, i + 1);
    } else if c == '^' || c == '_' {
        let (lo, hi, next) = read_script_arg(s, i + 1);
        if i + 1 >= s.len() {
            assert(structural_from(Seq::<char>::empty(), 0) == Seq::<char>::empty());
            assert(s@.subrange(lo as int, hi as int) =~= Seq::<char>::empty());
        }
        let src = copy_range(s, lo, hi);
        let inner = process_structural(&src);
        let out = if lo > i + 1 {
            to_braced_script(&inner, c == '^')
        } else {
            to_script(&inner, c == '^')
        };
        return (out, next);
    } else if c == '&' {
        let mut out: Vec<char> = Vec::new();
        out.push(' ');
        return (out, i + 1);
    } else {
        let mut out: Vec<char> = Vec::new();
        out.push(c);
        return (out, i + 1);
    }
}

/// Rewrites fractions, roots, super- and subscripts, accents, font commands,
/// line breaks and alignment marks (`process_structural`).
pub fn process_structural(input: &Vec<char>) -> (r: Vec<char>)
    ensures
        r@ == structural(input@),
    decreases input.len(), 1int,
{
    let mut out: Vec<char> = Vec::new();
    let mut i: usize = 0;
    assert(out@ + structural_from(input@, 0) =~= structural_from(input@, 0));
    while i < input.len()
        invariant
            i <= input.len(),
            out@ + structural_from(input@, i as int) == structural_from(input@, 0),
        decreases input.len() - i,
    {
        let (tok, next) = structural_token_exec(input, i);
        let ghost before = out@;
        push_all(&mut out, &tok);
        i = next;
        assert(before + (tok@ + structural_from(input@, i as int)) =~= out@ + structural_from(
            input@,
            i as int,
        ));
    }
    assert(out@ + structural_from(input@, i as int) =~= out@);
    out
}

// ---------------------------------------------------------------------------
// Matrices
// ---------------------------------------------------------------------------

/// The trimmed parts that are not empty, in order.
pub open spec fn nonempty_cells(parts: Seq<Seq<char>>) -> Seq<Seq<char>>
    decreases parts.len(),
{
    if parts.len() == 0 {
        Seq::empty()
    } else {
        let rest = nonempty_cells(parts.drop_last());
        let t = trim(parts.last());
        if t.len() > 0 {
            rest.push(t)
        } else {
            rest
        }
    }
}

/// The cells of a matrix row separated by `&`, trimmed, empty ones
/// dropped, joined by single spaces.
pub open spec fn row_text(row: Seq<char>) -> Seq<char> {
    join_seq(nonempty_cells(split_seq(row, seq!['&'])), seq![' '])
}

/// The texts of the rows that hold at least one non-empty cell.
pub open spec fn nonempty_rows(rows: Seq<Seq<char>>) -> Seq<Seq<char>>
    decreases rows.len(),
{
    if rows.len() == 0 {
        Seq::empty()
    } else {
        let rest = nonempty_rows(rows.drop_last());
        if nonempty_cells(split_seq(rows.last(), seq!['&'])).len() > 0 {
            rest.push(row_text(rows.last()))
        } else {
            rest
        }
    }
}

/// A matrix body as one line: rows split at `\\`, joined by `; `, between
/// the environment's delimiters.
pub open spec fn matrix_text(inner: Seq<char>, open: Seq<char>, close: Seq<char>) -> Seq<char> {
    open + join_seq(nonempty_rows(split_seq(inner, seq!['\\', '\\'])), seq![';', ' ']) + close
}

proof fn lemma_nonempty_cells_len(parts: Seq<Seq<char>>)
    ensures
        nonempty_cells(parts).len() <= parts.len(),
        total_len(nonempty_cells(parts)) <= total_len(parts),
    decreases parts.len(),
{
    if parts.len() > 0 {
        lemma_nonempty_cells_len(parts.drop_last());
        lemma_trim_len(parts.last());
        let rest = nonempty_cells(parts.drop_last());
        let t = trim(parts.last());
        if t.len() > 0 {
            assert(rest.push(t).drop_last() =~= rest);
        }
    }
}

proof fn lemma_row_text_len(row: Seq<char>)
    ensures
        row_text(row).len() <= row.len(),
{
    let sep = seq!['&'];
    let parts = split_seq(row, sep);
    let cells = nonempty_cells(parts);
    lemma_split_len(row, sep);
    lemma_nonempty_cells_len(parts);
    assert(sep.len() == 1);
    assert(row.len() == total_len(parts) + (parts.len() - 1));
    if cells.len() > 0 {
        let space = seq![' '];
        lemma_join_len(cells, space);
        assert(space.len() == 1);
        assert(join_seq(cells, space).len() == total_len(cells) + (cells.len() - 1));
    }
}

proof fn lemma_nonempty_rows_len(rows: Seq<Seq<char>>)
    ensures
        nonempty_rows(rows).len() <= rows.len(),
        total_len(nonempty_rows(rows)) <= total_len(rows),
    decreases rows.len(),
{
    if rows.len() > 0 {
        lemma_nonempty_rows_len(rows.drop_last());
        lemma_row_text_len(rows.last());
        let rest = nonempty_rows(rows.drop_last());
        if nonempty_cells(split_seq(rows.last(), seq!['&'])).len() > 0 {
            assert(rest.push(row_text(rows.last())).drop_last() =~= rest);
        }
    }
}

/// Flattening a matrix body never lengthens it, but for the delimiters.
pub proof fn lemma_matrix_text_len(inner: Seq<char>, open: Seq<char>, close: Seq<char>)
    ensures
        matrix_text(inner, open, close).len() <= open.len() + inner.len() + close.len(),
{
    let sep = seq!['\\', '\\'];
    let rows = split_seq(inner, sep);
    let kept = nonempty_rows(rows);
    lemma_split_len(inner, sep);
    lemma_nonempty_rows_len(rows);
    assert(sep.len() == 2);
    assert(inner.len() == total_len(rows) + 2 * (rows.len() - 1));
    if kept.len() > 0 {
        let semi = seq![';', ' '];
        lemma_join_len(kept, semi);
        assert(semi.len() == 2);
        assert(join_seq(kept, semi).len() == total_len(kept) + 2 * (kept.len() - 1));
    }
}

fn nonempty_cells_exec(parts: &Vec<Vec<char>>) -> (r: Vec<Vec<char>>)
    ensures
        r@.map_values(|p: Vec<char>| p@) == nonempty_cells(parts@.map_values(|p: Vec<char>| p@)),
{
    let ghost views = parts@.map_values(|p: Vec<char>| p@);
    let mut r: Vec<Vec<char>> = Vec::new();
    let mut k: usize = 0;
    while k < parts.len()
        invariant
            k <= parts.len(),
            views == parts@.map_values(|p: Vec<char>| p@),
            r@.map_values(|p: Vec<char>| p@) == nonempty_cells(views.take(k as int)),
        decreases parts.len() - k,
    {
        let ghost before = r@.map_values(|p: Vec<char>| p@);
        let (a, b) = trim_range(&parts[k], 0, parts[k].len());
        assert(parts@[k as int]@.subrange(0, parts@[k as int]@.len() as int) =~= parts@[k as int]@);
        assert(views.take(k + 1).drop_last() =~= views.take(k as int));
        if b > a {
            let cell = copy_range(&parts[k], a, b);
            r.push(cell);
            assert(r@.map_values(|p: Vec<char>| p@) =~= before.push(cell@));
        }
        k = k + 1;
    }
    assert(views.take(parts.len() as int) =~= views);
    r
}

/// `matrix_text(inner, open, close)` (`convert_matrix_inner`).
pub fn convert_matrix_inner(inner: &Vec<char>, open: &Vec<char>, close: &Vec<char>) -> (r: Vec<
    char,
>)
    ensures
        r@ == matrix_text(inner@, open@, close@),
{
    let mut row_sep: Vec<char> = Vec::new();
    row_sep.push('\\');
    row_sep.push('\\');
    let mut cell_sep: Vec<char> = Vec::new();
    cell_sep.push('&');
    let mut space: Vec<char> = Vec::new();
    space.push(' ');
    let mut semi: Vec<char> = Vec::new();
    semi.push(';');
    semi.push(' ');
    assert(row_sep@ =~= seq!['\\', '\\']);
    assert(cell_sep@ =~= seq!['&']);
    assert(space@ =~= seq![' ']);
    assert(semi@ =~= seq![';', ' ']);
    let rows = split_vec(inner, &row_sep);
    let ghost row_views = rows@.map_values(|p: Vec<char>| p@);
    let mut texts: Vec<Vec<char>> = Vec::new();
    let mut k: usize = 0;
    while k < rows.len()
        invariant
            k <= rows.len(),
            row_views == rows@.map_values(|p: Vec<char>| p@),
            cell_sep@ == seq!['&'],
            space@ == seq![' '],
            texts@.map_values(|p: Vec<char>| p@) == nonempty_rows(row_views.take(k as int)),
        decreases rows.len() - k,
    {
        let ghost before = texts@.map_values(|p: Vec<char>| p@);
        let cols = split_vec(&rows[k], &cell_sep);
        let cells = nonempty_cells_exec(&cols);
        assert(row_views.take(k + 1).drop_last() =~= row_views.take(k as int));
        assert(row_views.take(k + 1).last() == rows@[k as int]@);
        if cells.len() > 0 {
            let text = join_vec(&cells, &space);
            texts.push(text);
            assert(texts@.map_values(|p: Vec<char>| p@) =~= before.push(text@));
        }
        k = k + 1;
    }
    assert(row_views.take(rows.len() as int) =~= row_views);
    let body = join_vec(&texts, &semi);
    let mut out: Vec<char> = Vec::new();
    push_all(&mut out, open);
    push_all(&mut out, &body);
    push_all(&mut out, close);
    assert(out@ =~= matrix_text(inner@, open@, close@));
    out
}

/// The matrix environments with their delimiters, in the order in which
/// they are converted.
pub open spec fn matrix_envs() -> Seq<(&'static str, &'static str, &'static str)> {
    seq![
        ("pmatrix", "(", ")"), ("bmatrix", "[", "]"), ("vmatrix", "|", "|"), ("Bmatrix", "{", "}"),
        ("matrix", "", ""),
    ]
}

fn matrix_envs_exec() -> (t: Vec<(&'static str, &'static str, &'static str)>)
    ensures
        t@ == matrix_envs(),
{
    let t = vec![
        ("pmatrix", "(", ")"), ("bmatrix", "[", "]"), ("vmatrix", "|", "|"), ("Bmatrix", "{", "}"),
        ("matrix", "", ""),
    ];
    assert(t@ =~= matrix_envs());
    t
}

/// `\begin{env}`.
pub open spec fn begin_tag(env: Seq<char>) -> Seq<char> {
    "\\begin{"@ + env + seq!['}']
}

/// `\end{env}`.
pub open spec fn end_tag(env: Seq<char>) -> Seq<char> {
    "\\end{"@ + env + seq!['}']
}

/// Every `b ... e` environment of `s` flattened, first occurrence first,
/// until none is left. (Defined where the tags are longer than the
/// delimiters, so that each step shortens the text.)
pub open spec fn convert_env(
    s: Seq<char>,
    b: Seq<char>,
    e: Seq<char>,
    open: Seq<char>,
    close: Seq<char>,
) -> Seq<char>
    decreases s.len(),
    when open.len() + close.len() < b.len() + e.len()
{
    match find_from(s, b, 0) {
        None => s,
        Some(start) => match find_from(s, e, start) {
            None => s,
            Some(end) => if 0 <= start && start + b.len() <= end && end + e.len() <= s.len() {
                let t = s.take(start) + matrix_text(s.subrange(start + b.len(), end), open, close)
                    + s.skip(end + e.len());
                proof {
                    lemma_matrix_text_len(s.subrange(start + b.len(), end), open, close);
                }
                convert_env(t, b, e, open, close)
            } else {
                s
            },
        },
    }
}

/// Matrix conversion of `s` for the environments from entry `k` on.
pub open spec fn matrices_from(s: Seq<char>, k: int) -> Seq<char>
    decreases matrix_envs().len() - k,
{
    if k < 0 || k >= matrix_envs().len() {
        s
    } else {
        let env = matrix_envs()[k];
        matrices_from(convert_env(s, begin_tag(env.0@), end_tag(env.0@), env.1@, env.2@), k + 1)
    }
}

/// Flattens `pmatrix`, `bmatrix`, `vmatrix`, `Bmatrix` and `matrix`
/// environments to one-line rows (`convert_matrices`).
pub fn convert_matrices(input: &Vec<char>) -> (r: Vec<char>)
    ensures
        r@ == matrices_from(input@, 0),
{
    let envs = matrix_envs_exec();
    proof {
        reveal_strlit("\\begin{");
        reveal_strlit("\\end{");
        reveal_strlit("(");
        reveal_strlit(")");
        reveal_strlit("[");
        reveal_strlit("]");
        reveal_strlit("|");
        reveal_strlit("{");
        reveal_strlit("}");
        reveal_strlit("");
        assert forall|j: int| 0 <= j < envs@.len() implies (#[trigger] envs@[j]).1@.len() <= 1
            && envs@[j].2@.len() <= 1 by {
            assert(envs@[j] == matrix_envs()[j]);
        }
    }
    let mut s: Vec<char> = copy_range(input, 0, input.len());
    assert(s@ =~= input@);
    let mut k: usize = 0;
    while k < envs.len()
        invariant
            k <= envs.len(),
            envs@ == matrix_envs(),
            forall|j: int| 0 <= j < envs@.len() ==> (#[trigger] envs@[j]).1@.len() <= 1
                && envs@[j].2@.len() <= 1,
            matrices_from(s@, k as int) == matrices_from(input@, 0),
        decreases envs.len() - k,
    {
        let (env, open, close) = envs[k];
        let mut b: Vec<char> = Vec::new();
        push_str(&mut b, "\\begin{");
        push_str(&mut b, env);
        b.push('}');
        let mut e: Vec<char> = Vec::new();
        push_str(&mut e, "\\end{");
        push_str(&mut e, env);
        e.push('}');
        assert(b@ =~= begin_tag(env@));
        assert(e@ =~= end_tag(env@));
        let ov = chars_of(open);
        let cv = chars_of(close);
        assert(envs@[k as int].1@.len() <= 1 && envs@[k as int].2@.len() <= 1);
        assert(b@.len() >= 8) by {
            reveal_strlit("\\begin{");
        }
        s = convert_env_exec(s, &b, &e, &ov, &cv);
        k = k + 1;
    }
    s
}

fn convert_env_exec(s0: Vec<char>, b: &Vec<char>, e: &Vec<char>, open: &Vec<char>, close: &Vec<
    char,
>) -> (r: Vec<char>)
    requires
        open@.len() + close@.len() < b@.len() + e@.len(),
    ensures
        r@ == convert_env(s0@, b@, e@, open@, close@),
{
    let mut s = s0;
    loop
        invariant
            open@.len() + close@.len() < b@.len() + e@.len(),
            convert_env(s@, b@, e@, open@, close@) == convert_env(s0@, b@, e@, open@, close@),
        decreases s.len(),
    {
        let start = match find_vec(&s, b, 0) {
            Some(start) => start,
            None => {
                return s;
            },
        };
        proof {
            lemma_find_from(s@, b@, 0);
        }
        let end = match find_vec(&s, e, start) {
            Some(end) => end,
            None => {
                return s;
            },
        };
        proof {
            lemma_find_from(s@, e@, start as int);
        }
        if start > s.len() || b.len() > end || start > end - b.len() || e.len() > s.len()
            || end > s.len() - e.len() {
            return s;
        }
        let inner = copy_range(&s, start + b.len(), end);
        let converted = convert_matrix_inner(&inner, open, close);
        let mut t = copy_range(&s, 0, start);
        push_all(&mut t, &converted);
        let tail = copy_range(&s, end + e.len(), s.len());
        push_all(&mut t, &tail);
        assert(t@ =~= s@.take(start as int) + matrix_text(
            s@.subrange(start + b@.len(), end as int),
            open@,
            close@,
        ) + s@.skip(end + e@.len()));
        proof {
            lemma_matrix_text_len(inner@, open@, close@);
        }
        s = t;
    }
}

// ---------------------------------------------------------------------------
// Sizing and spacing commands
// ---------------------------------------------------------------------------

/// Delimiter sizing commands, then spacing commands, in the order in which
/// they are removed.
pub open spec fn stripped_commands() -> Seq<&'static str> {
    seq![
        "\\Bigg", "\\bigg", "\\Big", "\\big", "\\left", "\\right", "\\qquad", "\\quad",
        "\\displaystyle", "\\textstyle", "\\,", "\\;", "\\:", "\\!",
    ]
}

fn stripped_commands_exec() -> (t: Vec<&'static str>)
    ensures
        t@ == stripped_commands(),
{
    let t = vec![
        "\\Bigg", "\\bigg", "\\Big", "\\big", "\\left", "\\right", "\\qquad", "\\quad",
        "\\displaystyle", "\\textstyle", "\\,", "\\;", "\\:", "\\!",
    ];
    assert(t@ =~= stripped_commands());
    t
}

/// The command `cmd` stands at the start of `s` as a whole command: a
/// command whose name ends in a letter is not followed by another letter
/// (so `\\right` is no part of `\\rightarrow`).
pub open spec fn command_at(s: Seq<char>, cmd: Seq<char>) -> bool {
    &&& cmd.len() > 0
    &&& has_at(s, 0, cmd)
    &&& !(is_ascii_alpha(cmd.last()) && cmd.len() < s.len() && is_ascii_alpha(s[cmd.len() as int]))
}

/// `s` with every whole occurrence of the command `cmd` removed.
pub open spec fn remove_command(s: Seq<char>, cmd: Seq<char>) -> Seq<char>
    decreases s.len(),
{
    if s.len() == 0 {
        s
    } else if command_at(s, cmd) {
        remove_command(s.skip(cmd.len() as int), cmd)
    } else {
        seq![s[0]] + remove_command(s.drop_first(), cmd)
    }
}

/// `s` with the commands from entry `k` on removed, one command after the
/// other.
pub open spec fn strip_from(s: Seq<char>, k: int) -> Seq<char>
    decreases stripped_commands().len() - k,
{
    if k < 0 || k >= stripped_commands().len() {
        s
    } else {
        strip_from(remove_command(s, stripped_commands()[k]@), k + 1)
    }
}

/// `remove_command(s, cmd)`.
fn remove_command_vec(s: &Vec<char>, cmd: &Vec<char>) -> (r: Vec<char>)
    ensures
        r@ == remove_command(s@, cmd@),
{
    let mut out: Vec<char> = Vec::new();
    let mut i: usize = 0;
    assert(s@.skip(0) =~= s@);
    assert(out@ + remove_command(s@, cmd@) =~= remove_command(s@, cmd@));
    while i < s.len()
        invariant
            i <= s.len(),
            out@ + remove_command(s@.skip(i as int), cmd@) == remove_command(s@, cmd@),
        decreases s.len() - i,
    {
        let ghost rest = s@.skip(i as int);
        let n = cmd.len();
        let whole = n > 0 && vec_at(s, i, cmd) && !(ascii_alpha(cmd[n - 1]) && n < s.len() - i
            && ascii_alpha(s[i + n]));
        proof {
            if n > 0 && i + n <= s.len() {
                assert(rest.subrange(0, n as int) =~= s@.subrange(i as int, i + n));
            }
            if n > 0 && n < rest.len() {
                assert(rest[n as int] == s@[i + n]);
            }
        }
        if whole {
            assert(command_at(rest, cmd@));
            assert(rest.skip(n as int) =~= s@.skip(i + n));
            i = i + n;
        } else {
            assert(!command_at(rest, cmd@));
            assert(rest.drop_first() =~= s@.skip(i + 1));
            let ghost before = out@;
            out.push(s[i]);
            i = i + 1;
            assert(before + (seq![rest[0]] + remove_command(s@.skip(i as int), cmd@)) =~= out@
                + remove_command(s@.skip(i as int), cmd@));
        }
    }
    assert(s@.skip(s.len() as int) =~= Seq::<char>::empty());
    assert(out@ + Seq::<char>::empty() =~= out@);
    out
}

fn strip_commands(input: &Vec<char>) -> (r: Vec<char>)
    ensures
        r@ == strip_from(input@, 0),
{
    let cmds = stripped_commands_exec();
    let mut s = copy_range(input, 0, input.len());
    assert(s@ =~= input@);
    let mut k: usize = 0;
    while k < cmds.len()
        invariant
            k <= cmds.len(),
            cmds@ == stripped_commands(),
            strip_from(s@, k as int) == strip_from(input@, 0),
        decreases cmds.len() - k,
    {
        let pat = chars_of(cmds[k]);
        s = remove_command_vec(&s, &pat);
        k = k + 1;
    }
    s
}

// ---------------------------------------------------------------------------
// White space
// ---------------------------------------------------------------------------

/// A Unicode superscript or subscript character: the digits, signs,
/// brackets and letters of the superscripts and subscripts block, and
/// `¹`, `²`, `³`, `ᵢ`, `ᵣ`.
pub open spec fn script_char(c: char) -> bool {
    ('\u{2070}' <= c && c <= '\u{209C}') || c == '\u{00B9}' || c == '\u{00B2}' || c
        == '\u{00B3}' || c == '\u{1D62}' || c == '\u{1D63}'
}

/// Characters between which a space is kept (`is_space_worthy`): letters
/// and digits other than superscripts and subscripts, `∞`, brackets and
/// braces, `=`, `:`, `;`, `,`, `.`, `+`, `-` and combining accents. Spaces
/// beside a script character or a `/` are dropped, so that
/// `e^2 / 4\pi\epsilon_0 r` reads `e²/4πε₀r`, while `\int_0^{\infty}
/// e^{-x^2} dx` reads `∫₀^∞ e^{-x²} dx`.
pub open spec fn space_worthy(c: char) -> bool {
    (alphanumeric(c) && !script_char(c)) || c == '\u{221E}' || c == '(' || c == ')' || c == '['
        || c == ']' || c == '{' || c == '}' || c == '=' || c == ':' || c == ';' || c == ',' || c
        == '.' || c == '+' || c == '-' || c == '\u{0302}' || c == '\u{0304}' || c == '\u{0303}'
        || c == '\u{0307}' || c == '\u{20D7}'
}

pub fn is_space_worthy(c: char) -> (b: bool)
    ensures
        b == space_worthy(c),
{
    let script = ('\u{2070}' <= c && c <= '\u{209C}') || c == '\u{00B9}' || c == '\u{00B2}' || c
        == '\u{00B3}' || c == '\u{1D62}' || c == '\u{1D63}';
    (char_is_alphanumeric(c) && !script) || c == '\u{221E}' || c == '(' || c == ')' || c == '['
        || c == ']' || c == '{' || c == '}' || c == '=' || c == ':' || c == ';' || c == ',' || c
        == '.' || c == '+' || c == '-' || c == '\u{0302}' || c == '\u{0304}' || c == '\u{0303}'
        || c == '\u{0307}' || c == '\u{20D7}'
}

/// The end of the run of white space that starts at `j`.
pub open spec fn ws_run_end(s: Seq<char>, j: int) -> int
    decreases s.len() - j,
{
    if 0 <= j < s.len() && is_ws(s[j]) {
        ws_run_end(s, j + 1)
    } else {
        j
    }
}

/// `s[i..]` appended to `acc` with every run of white space replaced by one
/// space when space-worthy characters stand on both sides, and dropped
/// otherwise.
pub open spec fn collapse_from(s: Seq<char>, i: int, acc: Seq<char>) -> Seq<char>
    decreases s.len() - i,
{
    if i < 0 || i >= s.len() {
        acc
    } else if is_ws(s[i]) {
        let j = ws_run_end(s, i);
        let keep = acc.len() > 0 && j < s.len() && space_worthy(acc.last()) && space_worthy(s[j]);
        if i < j <= s.len() {
            collapse_from(s, j, if keep { acc.push(' ') } else { acc })
        } else {
            acc
        }
    } else {
        collapse_from(s, i + 1, acc.push(s[i]))
    }
}

/// White space collapsed, then trimmed (`cleanup`).
pub open spec fn cleaned(s: Seq<char>) -> Seq<char> {
    trim(collapse_from(s, 0, Seq::empty()))
}

pub fn cleanup(s: &Vec<char>) -> (r: Vec<char>)
    ensures
        r@ == cleaned(s@),
{
    let mut acc: Vec<char> = Vec::new();
    let mut i: usize = 0;
    while i < s.len()
        invariant
            i <= s.len(),
            collapse_from(s@, i as int, acc@) == collapse_from(s@, 0, Seq::empty()),
        decreases s.len() - i,
    {
        if is_whitespace(s[i]) {
            let mut j = i;
            while j < s.len() && is_whitespace(s[j])
                invariant
                    i <= j <= s.len(),
                    ws_run_end(s@, i as int) == ws_run_end(s@, j as int),
                decreases s.len() - j,
            {
                j = j + 1;
            }
            let keep = acc.len() > 0 && j < s.len() && is_space_worthy(acc[acc.len() - 1])
                && is_space_worthy(s[j]);
            if keep {
                acc.push(' ');
            }
            i = j;
        } else {
            acc.push(s[i]);
            i = i + 1;
        }
    }
    let (a, b) = trim_range(&acc, 0, acc.len());
    assert(acc@.subrange(0, acc@.len() as int) =~= acc@);
    copy_range(&acc, a, b)
}

// ---------------------------------------------------------------------------
// The conversion
// ---------------------------------------------------------------------------

/// The Unicode text of a LaTeX formula.
pub open spec fn unicode_of(latex: Seq<char>) -> Seq<char> {
    cleaned(symbols_from(structural(matrices_from(strip_from(latex, 0), 0)), 0))
}

/// Converts LaTeX math to Unicode text for terminal display.
pub fn latex_to_unicode(latex: &str) -> (r: String)
    ensures
        r@ == unicode_of(latex@),
{
    let s = chars_of(latex);
    let s = strip_commands(&s);
    let s = convert_matrices(&s);
    let s = process_structural(&s);
    let s = replace_symbols(&s);
    let s = cleanup(&s);
    string_of(&s)
}

} // verus!

verus! {

// ---------------------------------------------------------------------------
// Laws of the structural rewriting
// ---------------------------------------------------------------------------

/// A font or text command: `\text`, `\mathrm`, `\mathbf`, `\mathcal`,
/// `\mathit`, `\boldsymbol` or `\operatorname`.
pub open spec fn font_command(c: Seq<char>) -> bool {
    c == "\\text"@ || c == "\\mathrm"@ || c == "\\mathbf"@ || c == "\\mathcal"@ || c
        == "\\mathit"@ || c == "\\boldsymbol"@ || c == "\\operatorname"@
}

/// `{x}` is one balanced brace group: its first closing brace at depth
/// zero is the last character.
pub open spec fn group_body(x: Seq<char>) -> bool {
    brace_scan(x + seq!['}'], 0, 1) == Some(x.len() + 1int)
}

proof fn lemma_brace_scan_shift(c: Seq<char>, y: Seq<char>, j: int, d: int)
    requires
        0 <= j <= y.len(),
    ensures
        brace_scan(c + y, c.len() + j, d) == (match brace_scan(y, j, d) {
            Some(e) => Some(c.len() + e),
            None => None,
        }),
    decreases y.len() - j,
{
    let s = c + y;
    if j < y.len() {
        assert(s[c.len() + j] == y[j]);
        lemma_brace_scan_shift(c, y, j + 1, d + 1);
        lemma_brace_scan_shift(c, y, j + 1, d - 1);
        lemma_brace_scan_shift(c, y, j + 1, d);
    }
}

/// A font or text command around a balanced group rewrites as the group's
/// content alone: the command and its braces go, the content stays.
#[verifier::spinoff_prover]
#[verifier::rlimit(80)]
pub proof fn lemma_font_command_dropped(c: Seq<char>, x: Seq<char>)
    requires
        font_command(c),
        group_body(x),
    ensures
        structural(c + seq!['{'] + x + seq!['}']) == structural(x),
{
    reveal_strlit("\\text");
    reveal_strlit("\\mathrm");
    reveal_strlit("\\mathbf");
    reveal_strlit("\\mathcal");
    reveal_strlit("\\mathit");
    reveal_strlit("\\boldsymbol");
    reveal_strlit("\\operatorname");
    reveal_strlit("\\frac");
    reveal_strlit("\\fractal");
    reveal_strlit("\\sqrt");
    reveal_strlit("\\tilde");
    reveal_strlit("\\hat");
    reveal_strlit("\\vec");
    reveal_strlit("\\bar");
    reveal_strlit("\\dot");
    reveal_with_fuel(accent_from, 6);
    reveal_with_fuel(text_from, 8);
    let s = c + seq!['{'] + x + seq!['}'];
    let b = c.len() as int;
    let e = s.len() as int;
    assert(c.len() >= 5);
    assert(s[0] == '\\' && s[1] == c[1] && s[2] == c[2] && s[3] == c[3] && s[4] == c[4]);
    assert(c.len() >= 6 ==> s[5] == c[5]);
    assert(s[b] == '{');
    assert(!has_at(s, 0, "\\frac"@)) by {
        if has_at(s, 0, "\\frac"@) {
            assert(s.subrange(0, 5)[1] == s[1]);
        }
    }
    assert(frac_groups(s, 0) is None);
    assert(!has_at(s, 0, "\\sqrt"@)) by {
        if has_at(s, 0, "\\sqrt"@) {
            assert(s.subrange(0, 5)[1] == s[1]);
        }
    }
    assert(sqrt_group(s, 0) is None);
    assert forall|k: int| 0 <= k < accents().len() implies !has_at(s, 0, (#[trigger] accents()[k]).0@) by {
        let a = accents()[k].0@;
        if has_at(s, 0, a) {
            assert(s.subrange(0, a.len() as int)[1] == s[1]);
            assert(s.subrange(0, a.len() as int)[2] == s[2]);
        }
    }
    assert(accent_from(s, 0, 0) is None);
    assert(has_at(s, 0, c)) by {
        assert(s.subrange(0, b) =~= c);
    }
    assert forall|k: int| 0 <= k < text_commands().len() && text_commands()[k]@ != c implies !has_at(
        s,
        0,
        #[trigger] text_commands()[k]@,
    ) by {
        let t = text_commands()[k]@;
        if has_at(s, 0, t) {
            assert(s.subrange(0, t.len() as int)[1] == s[1]);
            assert(s.subrange(0, t.len() as int)[2] == s[2]);
            assert(s.subrange(0, t.len() as int)[5] == s[5]);
        }
    }
    assert(text_from(s, 0, 0) == Some(b));
    lemma_brace_scan_shift(c + seq!['{'], x + seq!['}'], 0, 1);
    assert(s =~= (c + seq!['{']) + (x + seq!['}']));
    assert(brace_close(s, b) == Some(e));
    assert(text_group(s, 0) == Some((b, e)));
    assert(s.subrange(b + 1, e - 1) =~= x);
    assert(structural_from(s, e) == Seq::<char>::empty());
    assert(0 < b + 1 && b + 1 <= e - 1 && e <= s.len());
    assert(structural_token(s, 0) == (structural_from(s.subrange(b + 1, e - 1), 0), e));
    assert(structural_token(s, 0) == (structural_from(x, 0), e));
    assert(structural_from(s, 0) == structural_from(x, 0) + structural_from(s, e));
    assert(structural_from(x, 0) + Seq::<char>::empty() =~= structural_from(x, 0));
}

} // verus!

verus! {

// ---------------------------------------------------------------------------
// What the named commands mean
// ---------------------------------------------------------------------------

/// `x[p..]` holds ASCII letters only.
pub open spec fn letters_from(x: Seq<char>, p: int) -> bool
    decreases x.len() - p,
{
    if p < 0 || p >= x.len() {
        true
    } else {
        is_ascii_alpha(x[p]) && letters_from(x, p + 1)
    }
}

proof fn lemma_letters_from(x: Seq<char>, p: int, q: int)
    requires
        0 <= p <= q < x.len(),
        letters_from(x, p),
    ensures
        is_ascii_alpha(x[q]),
    decreases q - p,
{
    if p < q {
        lemma_letters_from(x, p + 1, q);
    }
}

/// A command word: a backslash and one character, or a backslash and
/// letters.
pub open spec fn word_command(x: Seq<char>) -> bool {
    x.len() >= 2 && x[0] == '\\' && (x.len() == 2 || letters_from(x, 1))
}

/// The Unicode text that each of the lower-case greek letters stands for.
pub open spec fn greek_lower_meaning() -> Seq<(Seq<char>, Seq<char>)> {
    seq![
        ("\\varepsilon"@, seq!['\u{03B5}']), ("\\vartheta"@, seq!['\u{03D1}']),
        ("\\varphi"@, seq!['\u{03C6}']), ("\\alpha"@, seq!['\u{03B1}']),
        ("\\beta"@, seq!['\u{03B2}']), ("\\gamma"@, seq!['\u{03B3}']),
        ("\\delta"@, seq!['\u{03B4}']), ("\\epsilon"@, seq!['\u{03B5}']),
        ("\\zeta"@, seq!['\u{03B6}']), ("\\eta"@, seq!['\u{03B7}']),
        ("\\theta"@, seq!['\u{03B8}']), ("\\iota"@, seq!['\u{03B9}']),
        ("\\kappa"@, seq!['\u{03BA}']), ("\\lambda"@, seq!['\u{03BB}']),
        ("\\mu"@, seq!['\u{03BC}']), ("\\nu"@, seq!['\u{03BD}']), ("\\xi"@, seq!['\u{03BE}']),
        ("\\pi"@, seq!['\u{03C0}']), ("\\rho"@, seq!['\u{03C1}']), ("\\sigma"@, seq!['\u{03C3}']),
        ("\\tau"@, seq!['\u{03C4}']), ("\\upsilon"@, seq!['\u{03C5}']),
        ("\\phi"@, seq!['\u{03C6}']), ("\\chi"@, seq!['\u{03C7}']), ("\\psi"@, seq!['\u{03C8}']),
        ("\\omega"@, seq!['\u{03C9}']),
    ]
}

proof fn lemma_greek_lower_meaning()
    ensures
        greek_lower().len() == greek_lower_meaning().len(),
        forall|k: int|
            0 <= k < greek_lower().len() ==> (#[trigger] greek_lower()[k]).0@ == greek_lower_meaning()[k].0
                && greek_lower()[k].1@ == greek_lower_meaning()[k].1,
        forall|k: int|
            0 <= k < greek_lower_meaning().len() ==> word_command(#[trigger] greek_lower_meaning()[k].0),
{
    reveal_with_fuel(letters_from, 16);
    reveal_strlit("\\varepsilon"); reveal_strlit("\\vartheta"); reveal_strlit("\\varphi");
    reveal_strlit("\\alpha"); reveal_strlit("\\beta"); reveal_strlit("\\gamma");
    reveal_strlit("\\delta"); reveal_strlit("\\epsilon"); reveal_strlit("\\zeta");
    reveal_strlit("\\eta"); reveal_strlit("\\theta"); reveal_strlit("\\iota");
    reveal_strlit("\\kappa"); reveal_strlit("\\lambda"); reveal_strlit("\\mu");
    reveal_strlit("\\nu"); reveal_strlit("\\xi"); reveal_strlit("\\pi");
    reveal_strlit("\\rho"); reveal_strlit("\\sigma"); reveal_strlit("\\tau");
    reveal_strlit("\\upsilon"); reveal_strlit("\\phi"); reveal_strlit("\\chi");
    reveal_strlit("\\psi"); reveal_strlit("\\omega"); reveal_strlit("\u{03B1}");
    reveal_strlit("\u{03B2}"); reveal_strlit("\u{03B3}"); reveal_strlit("\u{03B4}");
    reveal_strlit("\u{03B5}"); reveal_strlit("\u{03B6}"); reveal_strlit("\u{03B7}");
    reveal_strlit("\u{03B8}"); reveal_strlit("\u{03B9}"); reveal_strlit("\u{03BA}");
    reveal_strlit("\u{03BB}"); reveal_strlit("\u{03BC}"); reveal_strlit("\u{03BD}");
    reveal_strlit("\u{03BE}"); reveal_strlit("\u{03C0}"); reveal_strlit("\u{03C1}");
    reveal_strlit("\u{03C3}"); reveal_strlit("\u{03C4}"); reveal_strlit("\u{03C5}");
    reveal_strlit("\u{03C6}"); reveal_strlit("\u{03C7}"); reveal_strlit("\u{03C8}");
    reveal_strlit("\u{03C9}"); reveal_strlit("\u{03D1}");
}

/// The Unicode text that each of the upper-case greek letters stands for.
pub open spec fn greek_upper_meaning() -> Seq<(Seq<char>, Seq<char>)> {
    seq![
        ("\\Gamma"@, seq!['\u{0393}']), ("\\Delta"@, seq!['\u{0394}']),
        ("\\Theta"@, seq!['\u{0398}']), ("\\Lambda"@, seq!['\u{039B}']),
        ("\\Xi"@, seq!['\u{039E}']), ("\\Pi"@, seq!['\u{03A0}']), ("\\Sigma"@, seq!['\u{03A3}']),
        ("\\Upsilon"@, seq!['\u{03A5}']), ("\\Phi"@, seq!['\u{03A6}']),
        ("\\Psi"@, seq!['\u{03A8}']), ("\\Omega"@, seq!['\u{03A9}']),
    ]
}

proof fn lemma_greek_upper_meaning()
    ensures
        greek_upper().len() == greek_upper_meaning().len(),
        forall|k: int|
            0 <= k < greek_upper().len() ==> (#[trigger] greek_upper()[k]).0@ == greek_upper_meaning()[k].0
                && greek_upper()[k].1@ == greek_upper_meaning()[k].1,
        forall|k: int|
            0 <= k < greek_upper_meaning().len() ==> word_command(#[trigger] greek_upper_meaning()[k].0),
{
    reveal_with_fuel(letters_from, 16);
    reveal_strlit("\\Gamma"); reveal_strlit("\\Delta"); reveal_strlit("\\Theta");
    reveal_strlit("\\Lambda"); reveal_strlit("\\Xi"); reveal_strlit("\\Pi");
    reveal_strlit("\\Sigma"); reveal_strlit("\\Upsilon"); reveal_strlit("\\Phi");
    reveal_strlit("\\Psi"); reveal_strlit("\\Omega"); reveal_strlit("\u{0393}");
    reveal_strlit("\u{0394}"); reveal_strlit("\u{0398}"); reveal_strlit("\u{039B}");
    reveal_strlit("\u{039E}"); reveal_strlit("\u{03A0}"); reveal_strlit("\u{03A3}");
    reveal_strlit("\u{03A5}"); reveal_strlit("\u{03A6}"); reveal_strlit("\u{03A8}");
    reveal_strlit("\u{03A9}");
}

/// The Unicode text that each of the relations, logic and other symbols stands for.
pub open spec fn symbols_meaning() -> Seq<(Seq<char>, Seq<char>)> {
    seq![
        ("\\emptyset"@, seq!['\u{2205}']), ("\\parallel"@, seq!['\u{2225}']),
        ("\\partial"@, seq!['\u{2202}']), ("\\ddagger"@, seq!['\u{2021}']),
        ("\\forall"@, seq!['\u{2200}']), ("\\exists"@, seq!['\u{2203}']),
        ("\\approx"@, seq!['\u{2248}']), ("\\bullet"@, seq!['\u{2022}']),
        ("\\dagger"@, seq!['\u{2020}']), ("\\otimes"@, seq!['\u{2297}']),
        ("\\oplus"@, seq!['\u{2295}']), ("\\supset"@, seq!['\u{2283}']),
        ("\\subset"@, seq!['\u{2282}']), ("\\propto"@, seq!['\u{221D}']),
        ("\\infty"@, seq!['\u{221E}']), ("\\nabla"@, seq!['\u{2207}']),
        ("\\notin"@, seq!['\u{2209}']), ("\\equiv"@, seq!['\u{2261}']),
        ("\\wedge"@, seq!['\u{2227}']), ("\\prime"@, seq!['\u{2032}']),
        ("\\times"@, seq!['\u{00D7}']), ("\\hbar"@, seq!['\u{210F}']),
        ("\\cdot"@, seq!['\u{00B7}']), ("\\circ"@, seq!['\u{2218}']),
        ("\\star"@, seq!['\u{22C6}']), ("\\perp"@, seq!['\u{22A5}']), ("\\ell"@, seq!['\u{2113}']),
        ("\\neg"@, seq!['\u{00AC}']), ("\\vee"@, seq!['\u{2228}']), ("\\cup"@, seq!['\u{222A}']),
        ("\\cap"@, seq!['\u{2229}']), ("\\neq"@, seq!['\u{2260}']), ("\\leq"@, seq!['\u{2264}']),
        ("\\geq"@, seq!['\u{2265}']), ("\\sim"@, seq!['\u{223C}']), ("\\in"@, seq!['\u{2208}']),
        ("\\ll"@, seq!['\u{226A}']), ("\\gg"@, seq!['\u{226B}']), ("\\pm"@, seq!['\u{00B1}']),
        ("\\mp"@, seq!['\u{2213}']),
    ]
}

proof fn lemma_symbols_meaning()
    ensures
        symbols().len() == symbols_meaning().len(),
        forall|k: int|
            0 <= k < symbols().len() ==> (#[trigger] symbols()[k]).0@ == symbols_meaning()[k].0
                && symbols()[k].1@ == symbols_meaning()[k].1,
        forall|k: int|
            0 <= k < symbols_meaning().len() ==> word_command(#[trigger] symbols_meaning()[k].0),
{
    reveal_with_fuel(letters_from, 16);
    reveal_strlit("\\emptyset"); reveal_strlit("\\parallel"); reveal_strlit("\\partial");
    reveal_strlit("\\ddagger"); reveal_strlit("\\forall"); reveal_strlit("\\exists");
    reveal_strlit("\\approx"); reveal_strlit("\\bullet"); reveal_strlit("\\dagger");
    reveal_strlit("\\otimes"); reveal_strlit("\\oplus"); reveal_strlit("\\supset");
    reveal_strlit("\\subset"); reveal_strlit("\\propto"); reveal_strlit("\\infty");
    reveal_strlit("\\nabla"); reveal_strlit("\\notin"); reveal_strlit("\\equiv");
    reveal_strlit("\\wedge"); reveal_strlit("\\prime"); reveal_strlit("\\times");
    reveal_strlit("\\hbar"); reveal_strlit("\\cdot"); reveal_strlit("\\circ");
    reveal_strlit("\\star"); reveal_strlit("\\perp"); reveal_strlit("\\ell");
    reveal_strlit("\\neg"); reveal_strlit("\\vee"); reveal_strlit("\\cup");
    reveal_strlit("\\cap"); reveal_strlit("\\neq"); reveal_strlit("\\leq");
    reveal_strlit("\\geq"); reveal_strlit("\\sim"); reveal_strlit("\\in");
    reveal_strlit("\\ll"); reveal_strlit("\\gg"); reveal_strlit("\\pm"); reveal_strlit("\\mp");
    reveal_strlit("\u{00AC}"); reveal_strlit("\u{00B1}"); reveal_strlit("\u{00B7}");
    reveal_strlit("\u{00D7}"); reveal_strlit("\u{2020}"); reveal_strlit("\u{2021}");
    reveal_strlit("\u{2022}"); reveal_strlit("\u{2032}"); reveal_strlit("\u{210F}");
    reveal_strlit("\u{2113}"); reveal_strlit("\u{2200}"); reveal_strlit("\u{2202}");
    reveal_strlit("\u{2203}"); reveal_strlit("\u{2205}"); reveal_strlit("\u{2207}");
    reveal_strlit("\u{2208}"); reveal_strlit("\u{2209}"); reveal_strlit("\u{2213}");
    reveal_strlit("\u{2218}"); reveal_strlit("\u{221D}"); reveal_strlit("\u{221E}");
    reveal_strlit("\u{2225}"); reveal_strlit("\u{2227}"); reveal_strlit("\u{2228}");
    reveal_strlit("\u{2229}"); reveal_strlit("\u{222A}"); reveal_strlit("\u{223C}");
    reveal_strlit("\u{2248}"); reveal_strlit("\u{2260}"); reveal_strlit("\u{2261}");
    reveal_strlit("\u{2264}"); reveal_strlit("\u{2265}"); reveal_strlit("\u{226A}");
    reveal_strlit("\u{226B}"); reveal_strlit("\u{2282}"); reveal_strlit("\u{2283}");
    reveal_strlit("\u{2295}"); reveal_strlit("\u{2297}"); reveal_strlit("\u{22A5}");
    reveal_strlit("\u{22C6}");
}

/// The Unicode text that each of the big operators stands for.
pub open spec fn operators_meaning() -> Seq<(Seq<char>, Seq<char>)> {
    seq![
        ("\\oint"@, seq!['\u{222E}']), ("\\prod"@, seq!['\u{220F}']), ("\\int"@, seq!['\u{222B}']),
        ("\\sum"@, seq!['\u{2211}']), ("\\lim"@, seq!['l', 'i', 'm']),
    ]
}

proof fn lemma_operators_meaning()
    ensures
        operators().len() == operators_meaning().len(),
        forall|k: int|
            0 <= k < operators().len() ==> (#[trigger] operators()[k]).0@ == operators_meaning()[k].0
                && operators()[k].1@ == operators_meaning()[k].1,
        forall|k: int|
            0 <= k < operators_meaning().len() ==> word_command(#[trigger] operators_meaning()[k].0),
{
    reveal_with_fuel(letters_from, 16);
    reveal_strlit("\\oint"); reveal_strlit("\\prod"); reveal_strlit("\\int");
    reveal_strlit("\\sum"); reveal_strlit("\\lim"); reveal_strlit("\u{220F}");
    reveal_strlit("\u{2211}"); reveal_strlit("\u{222B}"); reveal_strlit("\u{222E}");
    reveal_strlit("lim");
}

/// The Unicode text that each of the arrows stands for.
pub open spec fn arrows_meaning() -> Seq<(Seq<char>, Seq<char>)> {
    seq![
        ("\\Leftrightarrow"@, seq!['\u{21D4}']), ("\\leftrightarrow"@, seq!['\u{2194}']),
        ("\\Rightarrow"@, seq!['\u{21D2}']), ("\\rightarrow"@, seq!['\u{2192}']),
        ("\\Leftarrow"@, seq!['\u{21D0}']), ("\\leftarrow"@, seq!['\u{2190}']),
        ("\\downarrow"@, seq!['\u{2193}']), ("\\uparrow"@, seq!['\u{2191}']),
        ("\\mapsto"@, seq!['\u{21A6}']), ("\\to"@, seq!['\u{2192}']),
    ]
}

proof fn lemma_arrows_meaning()
    ensures
        arrows().len() == arrows_meaning().len(),
        forall|k: int|
            0 <= k < arrows().len() ==> (#[trigger] arrows()[k]).0@ == arrows_meaning()[k].0
                && arrows()[k].1@ == arrows_meaning()[k].1,
        forall|k: int|
            0 <= k < arrows_meaning().len() ==> word_command(#[trigger] arrows_meaning()[k].0),
{
    reveal_with_fuel(letters_from, 16);
    reveal_strlit("\\Leftrightarrow"); reveal_strlit("\\leftrightarrow");
    reveal_strlit("\\Rightarrow"); reveal_strlit("\\rightarrow"); reveal_strlit("\\Leftarrow");
    reveal_strlit("\\leftarrow"); reveal_strlit("\\downarrow"); reveal_strlit("\\uparrow");
    reveal_strlit("\\mapsto"); reveal_strlit("\\to"); reveal_strlit("\u{2190}");
    reveal_strlit("\u{2191}"); reveal_strlit("\u{2192}"); reveal_strlit("\u{2193}");
    reveal_strlit("\u{2194}"); reveal_strlit("\u{21A6}"); reveal_strlit("\u{21D0}");
    reveal_strlit("\u{21D2}"); reveal_strlit("\u{21D4}");
}

/// The Unicode text that each of the angle brackets and escaped braces stands for.
pub open spec fn delimiters_meaning() -> Seq<(Seq<char>, Seq<char>)> {
    seq![
        ("\\langle"@, seq!['\u{27E8}']), ("\\rangle"@, seq!['\u{27E9}']), ("\\{"@, seq!['{']),
        ("\\}"@, seq!['}']),
    ]
}

proof fn lemma_delimiters_meaning()
    ensures
        delimiters().len() == delimiters_meaning().len(),
        forall|k: int|
            0 <= k < delimiters().len() ==> (#[trigger] delimiters()[k]).0@ == delimiters_meaning()[k].0
                && delimiters()[k].1@ == delimiters_meaning()[k].1,
        forall|k: int|
            0 <= k < delimiters_meaning().len() ==> word_command(#[trigger] delimiters_meaning()[k].0),
{
    reveal_with_fuel(letters_from, 16);
    reveal_strlit("\\langle"); reveal_strlit("\\rangle"); reveal_strlit("\\{");
    reveal_strlit("\\}"); reveal_strlit("\u{27E8}"); reveal_strlit("\u{27E9}");
    reveal_strlit("{"); reveal_strlit("}");
}

/// What each command of the symbol table stands for.
pub open spec fn named_symbols() -> Seq<(Seq<char>, Seq<char>)> {
    greek_lower_meaning() + greek_upper_meaning() + symbols_meaning() + operators_meaning()
        + arrows_meaning() + delimiters_meaning()
}

/// Each entry of the symbol table is a command word, and stands for the text
/// that `named_symbols` gives the entry of the same place.
pub proof fn lemma_symbol_table_meaning()
    ensures
        symbol_table_spec().len() == named_symbols().len(),
        forall|k: int|
            0 <= k < symbol_table_spec().len() ==> (#[trigger] symbol_table_spec()[k]).0@
                == named_symbols()[k].0 && symbol_table_spec()[k].1@ == named_symbols()[k].1
                && word_command(named_symbols()[k].0),
{
    lemma_greek_lower_meaning();
    lemma_greek_upper_meaning();
    lemma_symbols_meaning();
    lemma_operators_meaning();
    lemma_arrows_meaning();
    lemma_delimiters_meaning();
    let t = symbol_table_spec();
    let n = named_symbols();
    let n1 = greek_lower().len() as int;
    let n2 = n1 + greek_upper().len();
    let n3 = n2 + symbols().len();
    let n4 = n3 + operators().len();
    let n5 = n4 + arrows().len();
    assert forall|k: int| 0 <= k < t.len() implies (#[trigger] t[k]).0@ == n[k].0 && t[k].1@
        == n[k].1 && word_command(n[k].0) by {
        if k < n1 {
            assert(t[k] == greek_lower()[k]);
            assert(n[k] == greek_lower_meaning()[k]);
        } else if k < n2 {
            assert(t[k] == greek_upper()[k - n1]);
            assert(n[k] == greek_upper_meaning()[k - n1]);
        } else if k < n3 {
            assert(t[k] == symbols()[k - n2]);
            assert(n[k] == symbols_meaning()[k - n2]);
        } else if k < n4 {
            assert(t[k] == operators()[k - n3]);
            assert(n[k] == operators_meaning()[k - n3]);
        } else if k < n5 {
            assert(t[k] == arrows()[k - n4]);
            assert(n[k] == arrows_meaning()[k - n4]);
        } else {
            assert(t[k] == delimiters()[k - n5]);
            assert(n[k] == delimiters_meaning()[k - n5]);
        }
    }
}

/// The text that command `c` stands for, from the entries of
/// `named_symbols` at `k` and after: the first entry for `c` decides.
pub open spec fn meaning_from(c: Seq<char>, k: int) -> Option<Seq<char>>
    decreases named_symbols().len() - k,
{
    if k < 0 || k >= named_symbols().len() {
        None
    } else if named_symbols()[k].0 == c {
        Some(named_symbols()[k].1)
    } else {
        meaning_from(c, k + 1)
    }
}

/// The text that command `c` stands for, if it names a symbol.
pub open spec fn meaning(c: Seq<char>) -> Option<Seq<char>> {
    meaning_from(c, 0)
}

proof fn lemma_meaning_from(c: Seq<char>, k: int) -> (j: int)
    requires
        0 <= k,
        meaning_from(c, k) is Some,
    ensures
        k <= j < named_symbols().len(),
        named_symbols()[j].0 == c,
        named_symbols()[j].1 == meaning_from(c, k).unwrap(),
        forall|m: int| k <= m < j ==> named_symbols()[m].0 != c,
    decreases named_symbols().len() - k,
{
    if named_symbols()[k].0 == c {
        k
    } else {
        lemma_meaning_from(c, k + 1)
    }
}

/// Where symbol replacement resumes after a command that ends at `end`: the
/// space that ends it is dropped when a letter or a command follows.
pub open spec fn resume_after(s: Seq<char>, end: int) -> int {
    if end < s.len() && s[end] == ' ' && letter_follows(s, end + 1) {
        end + 1
    } else {
        end
    }
}

/// Where a command that names a symbol stands in `s` at `i` as a whole word
/// (no letter follows it), symbol replacement writes the text the command
/// stands for, and goes on after the command.
pub proof fn lemma_named_command_replaced(s: Seq<char>, i: int, c: Seq<char>)
    requires
        has_at(s, i, c),
        meaning(c) is Some,
        i + c.len() == s.len() || !is_ascii_alpha(s[i + c.len()]),
    ensures
        symbols_from(s, i) == meaning(c).unwrap() + symbols_from(
            s,
            resume_after(s, i + c.len()),
        ),
{
    lemma_symbol_table_meaning();
    let k = lemma_meaning_from(c, 0);
    let t = symbol_table_spec();
    let n = named_symbols();
    assert(t[k].0@ == c && t[k].1@ == n[k].1 && word_command(c));
    assert(s.subrange(i, i + c.len())[0] == s[i]);
    assert(s[i] == '\\');
    assert(entry_matches(s, i, k));
    assert forall|j: int| 0 <= j < t.len() && #[trigger] entry_matches(s, i, j) implies t[j].0@.len()
        <= t[k].0@.len() && (j < k ==> t[j].0@.len() < t[k].0@.len()) by {
        let d = t[j].0@;
        assert(word_command(n[j].0));
        if d.len() > c.len() {
            assert(s.subrange(i, i + d.len())[c.len() as int] == s[i + c.len()]);
            lemma_letters_from(d, 1, c.len() as int);
        }
        if j < k && d.len() == c.len() {
            assert(d =~= c);
        }
    }
    assert(is_best_entry(s, i, k));
    let kk = choose|kk: int| is_best_entry(s, i, kk);
    lemma_best_entry_unique(s, i, k, kk);
    assert(after_symbol(s, i, k) == resume_after(s, i + c.len()));
}

/// Text without a backslash goes through symbol replacement unchanged.
pub proof fn lemma_symbols_keep_plain_text(s: Seq<char>, i: int)
    requires
        0 <= i <= s.len(),
        forall|j: int| i <= j < s.len() ==> s[j] != '\\',
    ensures
        symbols_from(s, i) == s.subrange(i, s.len() as int),
    decreases s.len() - i,
{
    if i < s.len() {
        lemma_symbols_keep_plain_text(s, i + 1);
        assert(s.subrange(i, s.len() as int) =~= seq![s[i]] + s.subrange(i + 1, s.len() as int));
    } else {
        assert(s.subrange(i, s.len() as int) =~= Seq::<char>::empty());
    }
}

} // verus!
