//! The commands of the command line, what each content command appends to
//! the board, and the reports that `status` and `selection` print.
use vstd::prelude::*;
use crate::document::Selection;
use crate::text::{chars_of, decimal, has_at, lit_at, push_decimal, push_str, string_of};

verus! {

/// The command line: one command.
pub struct Cli {
    pub command: Command,
}

/// A command of the command line.
pub enum Command {
    /// Create a new derivation session and open the board.
    New { title: String },
    /// Add a titled step with an equation.
    Step { title: String, latex: String },
    /// Add an equation to the current step.
    Eq { latex: String },
    /// Add a note to the current step.
    Note { text: String },
    /// Add a text block.
    Text { text: String },
    /// Add a highlighted result step.
    Result { title: String, latex: String },
    /// Add a section divider.
    Divider,
    /// Render one equation, without a session.
    Render { latex: String, output: Option<String> },
    /// Stop the session's server.
    Stop,
    /// Export the board as a self-contained HTML file.
    Export { output: String },
    /// Show the session's status.
    Status,
    /// Print the last selection on the board.
    Selection { json: bool, latex: bool },
    /// Show chat messages.
    Chat { all: bool, step: Option<usize>, json: bool },
    /// Reply to a question on a step.
    Reply { step_id: usize, text: String },
    /// Print new chat questions as they come.
    Listen { json: bool },
    /// Update to the latest version.
    Update { check: bool },
}

/// The text that a content command appends to the board file.
pub open spec fn entry_text(c: Command) -> Option<Seq<char>> {
    match c {
        Command::Step { title, latex } => Some(
            "\n## "@ + title@ + "\n\n$$"@ + latex@ + "$$\n"@,
        ),
        Command::Eq { latex } => Some("\n$$"@ + latex@ + "$$\n"@),
        Command::Note { text } => Some("\n> "@ + text@ + "\n"@),
        Command::Text { text } => Some("\n"@ + text@ + "\n"@),
        Command::Result { title, latex } => Some(
            "\n## "@ + title@ + " {.result}\n\n$$"@ + latex@ + "$$\n"@,
        ),
        Command::Divider => Some("\n---\n"@),
        _ => None,
    }
}

/// What a command appends to the board: the markdown of a step, an
/// equation, a note, a paragraph, a result or a divider; nothing for the
/// other commands.
pub fn board_entry(c: &Command) -> (r: Option<String>)
    ensures
        (match r {
            Some(s) => Some(s@),
            None => None::<Seq<char>>,
        }) == entry_text(*c),
{
    let mut out: Vec<char> = Vec::new();
    match c {
        Command::Step { title, latex } => {
            push_str(&mut out, "\n## ");
            push_str(&mut out, title.as_str());
            push_str(&mut out, "\n\n$$");
            push_str(&mut out, latex.as_str());
            push_str(&mut out, "$$\n");
        },
        Command::Eq { latex } => {
            push_str(&mut out, "\n$$");
            push_str(&mut out, latex.as_str());
            push_str(&mut out, "$$\n");
        },
        Command::Note { text } => {
            push_str(&mut out, "\n> ");
            push_str(&mut out, text.as_str());
            push_str(&mut out, "\n");
        },
        Command::Text { text } => {
            push_str(&mut out, "\n");
            push_str(&mut out, text.as_str());
            push_str(&mut out, "\n");
        },
        Command::Result { title, latex } => {
            push_str(&mut out, "\n## ");
            push_str(&mut out, title.as_str());
            push_str(&mut out, " {.result}\n\n$$");
            push_str(&mut out, latex.as_str());
            push_str(&mut out, "$$\n");
        },
        Command::Divider => {
            push_str(&mut out, "\n---\n");
        },
        _ => {
            return None;
        },
    }
    assert(Some(out@) == entry_text(*c));
    Some(string_of(&out))
}

/// `## `, which opens a step heading.
pub open spec fn heading_mark() -> Seq<char> {
    seq!['#', '#', ' ']
}

/// Position `p` starts a line.
pub open spec fn line_start(s: Seq<char>, p: int) -> bool {
    p == 0 || s[p - 1] == '\n'
}

/// The number of lines of `s[p..]` (counted from line starts at or after
/// `p`) that begin with `## `.
pub open spec fn headings_from(s: Seq<char>, p: int) -> nat
    decreases s.len() - p,
{
    if p < 0 || p >= s.len() {
        0
    } else {
        (if line_start(s, p) && has_at(s, p, heading_mark()) {
            1nat
        } else {
            0nat
        }) + headings_from(s, p + 1)
    }
}

/// The number of lines of a board that begin with `## `.
pub open spec fn heading_count(s: Seq<char>) -> nat {
    headings_from(s, 0)
}

/// The number of step headings in a board's text (`count_steps`).
pub fn count_steps(content: &str) -> (n: usize)
    ensures
        n == heading_count(content@),
{
    let s = chars_of(content);
    let mut mark: Vec<char> = Vec::new();
    mark.push('#');
    mark.push('#');
    mark.push(' ');
    assert(mark@ =~= heading_mark());
    let mut n: usize = 0;
    let mut p = s.len();
    while p > 0
        invariant
            p <= s.len(),
            mark@ == heading_mark(),
            n == headings_from(s@, p as int),
            n <= s.len() - p,
        decreases p,
    {
        p = p - 1;
        if (p == 0 || s[p - 1] == '\n') && crate::text::vec_at(&s, p, &mark) {
            n = n + 1;
        }
    }
    assert(s@ == content@);
    n
}

} // verus!

verus! {

proof fn lemma_headings_suffix(a: Seq<char>, b: Seq<char>, q: int)
    requires
        b.len() > 0,
        b[0] == '\n',
        0 <= q <= b.len(),
    ensures
        headings_from(a + b, a.len() + q) == headings_from(b, q),
    decreases b.len() - q,
{
    let s = a + b;
    if q < b.len() {
        lemma_headings_suffix(a, b, q + 1);
        let p = a.len() + q;
        if q > 0 {
            assert(s[p - 1] == b[q - 1]);
        }
        if has_at(s, p, heading_mark()) || has_at(b, q, heading_mark()) {
            assert(s.subrange(p, p + 3) =~= b.subrange(q, q + 3));
        }
        if q == 0 {
            if has_at(b, 0, heading_mark()) {
                assert(b.subrange(0, 3)[0] == '#');
            }
        }
    }
}

proof fn lemma_headings_prefix(a: Seq<char>, b: Seq<char>, p: int)
    requires
        b.len() > 0,
        b[0] == '\n',
        0 <= p <= a.len(),
    ensures
        headings_from(a + b, p) == headings_from(a, p) + headings_from(b, 0),
    decreases a.len() - p,
{
    let s = a + b;
    if p < a.len() {
        lemma_headings_prefix(a, b, p + 1);
        if p > 0 {
            assert(s[p - 1] == a[p - 1]);
        }
        if p + 3 <= a.len() {
            assert(s.subrange(p, p + 3) =~= a.subrange(p, p + 3));
        } else if has_at(s, p, heading_mark()) {
            let k = a.len() - p;
            assert(s.subrange(p, p + 3)[k] == s[a.len() as int]);
            assert(s[a.len() as int] == '\n');
        }
    } else {
        lemma_headings_suffix(a, b, 0);
    }
}

/// Text that starts a new line adds its own headings to a board's count:
/// a heading cannot straddle the line break.
pub proof fn lemma_headings_append(a: Seq<char>, b: Seq<char>)
    requires
        b.len() > 0,
        b[0] == '\n',
    ensures
        heading_count(a + b) == heading_count(a) + heading_count(b),
{
    lemma_headings_prefix(a, b, 0);
}

proof fn lemma_no_line_starts(s: Seq<char>, p: int)
    requires
        1 <= p <= s.len(),
        forall|k: int| p - 1 <= k < s.len() - 1 ==> s[k] != '\n',
    ensures
        headings_from(s, p) == 0,
    decreases s.len() - p,
{
    if p < s.len() {
        lemma_no_line_starts(s, p + 1);
    }
}

/// A line break followed by one line: it holds a heading exactly when the
/// line begins with `## `.
proof fn lemma_line_piece(s: Seq<char>)
    requires
        s.len() > 0,
        s[0] == '\n',
        forall|k: int| 1 <= k < s.len() - 1 ==> s[k] != '\n',
    ensures
        heading_count(s) == (if has_at(s, 1, heading_mark()) {
            1nat
        } else {
            0nat
        }),
{
    if has_at(s, 0, heading_mark()) {
        assert(s.subrange(0, 3)[0] == s[0]);
    }
    assert(headings_from(s, 0) == headings_from(s, 1));
    if s.len() > 1 {
        lemma_no_line_starts(s, 2);
        assert(line_start(s, 1));
        assert(headings_from(s, 1) == (if has_at(s, 1, heading_mark()) {
            1nat
        } else {
            0nat
        }) + headings_from(s, 2));
    } else {
        assert(headings_from(s, 1) == 0);
    }
}

/// No line break in a text.
pub open spec fn single_line(t: Seq<char>) -> bool {
    forall|k: int| 0 <= k < t.len() ==> t[k] != '\n'
}

/// What a content command adds to the board's heading count: one for a
/// step or a result, one for a text that starts with `## `, none for an
/// equation, a note or a divider.
pub open spec fn entry_headings(c: Command) -> nat {
    match c {
        Command::Step { .. } => 1,
        Command::Result { .. } => 1,
        Command::Text { text } => if has_at(text@, 0, heading_mark()) {
            1
        } else {
            0
        },
        _ => 0,
    }
}

/// The texts of a command hold no line break.
pub open spec fn single_line_command(c: Command) -> bool {
    match c {
        Command::Step { title, latex } => single_line(title@) && single_line(latex@),
        Command::Eq { latex } => single_line(latex@),
        Command::Note { text } => single_line(text@),
        Command::Text { text } => single_line(text@),
        Command::Result { title, latex } => single_line(title@) && single_line(latex@),
        _ => true,
    }
}

proof fn lemma_piece_3(x: Seq<char>, t: Seq<char>, y: Seq<char>)
    requires
        x.len() > 0,
        x[0] == '\n',
        forall|k: int| 1 <= k < x.len() ==> x[k] != '\n',
        single_line(t),
        y.len() > 0,
        forall|k: int| 0 <= k < y.len() - 1 ==> y[k] != '\n',
    ensures
        heading_count(x + t + y) == (if has_at(x + t + y, 1, heading_mark()) {
            1nat
        } else {
            0nat
        }),
{
    let s = x + t + y;
    assert forall|k: int| 1 <= k < s.len() - 1 implies s[k] != '\n' by {
        if k < x.len() {
            assert(s[k] == x[k]);
        } else if k < x.len() + t.len() {
            assert(s[k] == t[k - x.len()]);
        } else {
            assert(s[k] == y[k - x.len() - t.len()]);
        }
    }
    lemma_line_piece(s);
}

/// The board's heading count after a content command's entry: the count
/// before, plus one for a step or a result (`count_steps` then reports the
/// new step's number).
pub proof fn lemma_entry_adds_headings(board: Seq<char>, c: Command)
    requires
        entry_text(c) is Some,
        single_line_command(c),
    ensures
        heading_count(board + entry_text(c).unwrap()) == heading_count(board) + entry_headings(c),
{
    reveal_strlit("\n## ");
    reveal_strlit("\n\n$$");
    reveal_strlit("$$\n");
    reveal_strlit("\n$$");
    reveal_strlit("\n> ");
    reveal_strlit("\n");
    reveal_strlit(" {.result}\n\n$$");
    reveal_strlit("\n---\n");
    let m = heading_mark();
    match c {
        Command::Step { title, latex } => {
            let p1 = "\n## "@ + title@;
            let p2 = seq!['\n'];
            let p3 = seq!['\n', '$', '$'] + latex@ + seq!['$', '$', '\n'];
            assert(entry_text(c).unwrap() =~= p1 + (p2 + p3));
            assert(board + (p1 + (p2 + p3)) =~= board + p1 + p2 + p3);
            lemma_headings_append(board, p1);
            lemma_headings_append(board + p1, p2);
            lemma_headings_append(board + p1 + p2, p3);
            lemma_piece_3("\n## "@, title@, seq![' ']);
            assert(p1 + seq![' '] =~= "\n## "@ + title@ + seq![' ']);
            assert(heading_count(p1) == 1) by {
                assert((p1 + seq![' ']).subrange(1, 4) =~= m);
                lemma_line_piece(p1);
                assert(p1.subrange(1, 4) =~= m);
            }
            lemma_line_piece(p2);
            lemma_piece_3(seq!['\n', '$', '$'], latex@, seq!['$', '$', '\n']);
            assert(p3.subrange(1, 4)[0] == '$');
        },
        Command::Result { title, latex } => {
            let p1 = "\n## "@ + title@ + seq![' ', '{', '.', 'r', 'e', 's', 'u', 'l', 't', '}'];
            let p2 = seq!['\n'];
            let p3 = seq!['\n', '$', '$'] + latex@ + seq!['$', '$', '\n'];
            assert(entry_text(c).unwrap() =~= p1 + (p2 + p3));
            assert(board + (p1 + (p2 + p3)) =~= board + p1 + p2 + p3);
            lemma_headings_append(board, p1);
            lemma_headings_append(board + p1, p2);
            lemma_headings_append(board + p1 + p2, p3);
            lemma_piece_3("\n## "@, title@, seq![' ', '{', '.', 'r', 'e', 's', 'u', 'l', 't', '}']);
            assert(p1.subrange(1, 4) =~= m);
            lemma_line_piece(p2);
            lemma_piece_3(seq!['\n', '$', '$'], latex@, seq!['$', '$', '\n']);
            assert(p3.subrange(1, 4)[0] == '$');
        },
        Command::Eq { latex } => {
            let p = seq!['\n', '$', '$'] + latex@ + seq!['$', '$', '\n'];
            assert(entry_text(c).unwrap() =~= p);
            lemma_headings_append(board, p);
            lemma_piece_3(seq!['\n', '$', '$'], latex@, seq!['$', '$', '\n']);
            assert(p.subrange(1, 4)[0] == '$');
        },
        Command::Note { text } => {
            let p = seq!['\n', '>', ' '] + text@ + seq!['\n'];
            assert(entry_text(c).unwrap() =~= p);
            lemma_headings_append(board, p);
            lemma_piece_3(seq!['\n', '>', ' '], text@, seq!['\n']);
            assert(p.subrange(1, 4)[0] == '>');
        },
        Command::Text { text } => {
            let p = seq!['\n'] + text@ + seq!['\n'];
            assert(entry_text(c).unwrap() =~= p);
            lemma_headings_append(board, p);
            lemma_piece_3(seq!['\n'], text@, seq!['\n']);
            if has_at(p, 1, m) {
                assert(p.subrange(1, 4) =~= text@.subrange(0, 3));
            }
            if has_at(text@, 0, m) {
                assert(p.subrange(1, 4) =~= text@.subrange(0, 3));
            }
        },
        Command::Divider => {
            let p = seq!['\n', '-', '-', '-', '\n'];
            assert(entry_text(c).unwrap() =~= p);
            lemma_headings_append(board, p);
            lemma_line_piece(p);
            assert(p.subrange(1, 4)[0] == '-');
        },
        _ => {},
    }
}

} // verus!

verus! {

// ---------------------------------------------------------------------------
// Reports
// ---------------------------------------------------------------------------

/// What `status` reports: the port and step count of a running server, or
/// the step count of a board whose server is not running.
pub open spec fn status_text(running: bool, port: Option<u16>, steps: nat) -> Seq<char> {
    if running {
        "Running on "@ + (match port {
            Some(p) => seq![':'] + decimal(p as nat),
            None => "unknown port"@,
        }) + ", "@ + decimal(steps) + " steps"@
    } else {
        "Not running ("@ + decimal(steps) + " steps in board)"@
    }
}

/// The line that `status` prints for a session.
pub fn status_line(running: bool, port: Option<u16>, steps: usize) -> (r: String)
    ensures
        r@ == status_text(running, port, steps as nat),
{
    let mut out: Vec<char> = Vec::new();
    if running {
        push_str(&mut out, "Running on ");
        match port {
            Some(p) => {
                out.push(':');
                push_decimal(&mut out, p as usize);
            },
            None => {
                push_str(&mut out, "unknown port");
            },
        }
        push_str(&mut out, ", ");
        push_decimal(&mut out, steps);
        push_str(&mut out, " steps");
    } else {
        push_str(&mut out, "Not running (");
        push_decimal(&mut out, steps);
        push_str(&mut out, " steps in board)");
    }
    assert(out@ =~= status_text(running, port, steps as nat));
    string_of(&out)
}

/// What `selection` prints by default: the step, the LaTeX and its
/// Unicode form, one per line.
pub open spec fn selection_text(s: Selection) -> Seq<char> {
    "Step "@ + decimal(s.step_id as nat) + ": "@ + s.title@ + "\nLaTeX: "@ + s.latex@
        + "\nUnicode: "@ + s.unicode@
}

/// The lines that `selection` prints for a selection.
pub fn selection_summary(s: &Selection) -> (r: String)
    ensures
        r@ == selection_text(*s),
{
    let mut out: Vec<char> = Vec::new();
    push_str(&mut out, "Step ");
    push_decimal(&mut out, s.step_id);
    push_str(&mut out, ": ");
    push_str(&mut out, s.title.as_str());
    push_str(&mut out, "\nLaTeX: ");
    push_str(&mut out, s.latex.as_str());
    push_str(&mut out, "\nUnicode: ");
    push_str(&mut out, s.unicode.as_str());
    assert(out@ =~= selection_text(*s));
    string_of(&out)
}

} // verus!
