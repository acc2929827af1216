//! Text for the console and the status line: per-thread colours, log lines with a
//! right-aligned thread label, and shortened status paths.

use vstd::prelude::*;
use vstd::string::*;
use vstd::utf8::*;
use crate::decimal::{decimal, lemma_decimal_injective};

verus! {

/// Whether two strings hold the same characters.
pub fn str_eq(a: &str, b: &str) -> (r: bool)
    ensures
        r == (a@ == b@),
{
    let x = a.as_bytes();
    let y = b.as_bytes();
    proof {
        encode_utf8_decode_utf8(a@);
        encode_utf8_decode_utf8(b@);
    }
    if x.len() != y.len() {
        return false;
    }
    let mut i: usize = 0;
    while i < x.len()
        invariant
            x@ == a.spec_bytes(),
            y@ == b.spec_bytes(),
            x@.len() == y@.len(),
            i <= x@.len(),
            forall|j: int| 0 <= j < i ==> x@[j] == y@[j],
        decreases x@.len() - i,
    {
        if x[i] != y[i] {
            return false;
        }
        i = i + 1;
    }
    assert(x@ =~= y@);
    true
}

/// The colour escape that starts every log line of the thread named `name`.
pub open spec fn thread_color(name: Seq<char>) -> Seq<char> {
    if name == "main"@ {
        "\x1b[38;5;255m"@
    } else if name == "worker-sum-left"@ {
        "\x1b[38;5;204m"@
    } else if name == "worker-sum-right"@ {
        "\x1b[38;5;83m"@
    } else if name == "task-sum"@ {
        "\x1b[38;5;45m"@
    } else if name == "task-count-evens"@ {
        "\x1b[38;5;220m"@
    } else if name == "task-max"@ {
        "\x1b[38;5;141m"@
    } else if name == "sim-disk-read"@ {
        "\x1b[38;5;33m"@
    } else if name == "sim-http-get"@ {
        "\x1b[38;5;27m"@
    } else if name == "cpu-fibonacci"@ {
        "\x1b[38;5;118m"@
    } else if name == "cpu-scalar-mix"@ {
        "\x1b[38;5;208m"@
    } else if name == "race-writer-1"@ {
        "\x1b[38;5;199m"@
    } else if name == "race-writer-2"@ {
        "\x1b[38;5;39m"@
    } else if name == "race-writer-3"@ {
        "\x1b[38;5;154m"@
    } else {
        "\x1b[38;5;245m"@
    }
}

/// The 256-colour foreground escape for the thread named `name`; unknown names
/// get a neutral grey.
pub fn color_for_thread(name: &str) -> (r: &'static str)
    ensures
        r@ == thread_color(name@),
{
    if str_eq(name, "main") {
        "\x1b[38;5;255m"
    } else if str_eq(name, "worker-sum-left") {
        "\x1b[38;5;204m"
    } else if str_eq(name, "worker-sum-right") {
        "\x1b[38;5;83m"
    } else if str_eq(name, "task-sum") {
        "\x1b[38;5;45m"
    } else if str_eq(name, "task-count-evens") {
        "\x1b[38;5;220m"
    } else if str_eq(name, "task-max") {
        "\x1b[38;5;141m"
    } else if str_eq(name, "sim-disk-read") {
        "\x1b[38;5;33m"
    } else if str_eq(name, "sim-http-get") {
        "\x1b[38;5;27m"
    } else if str_eq(name, "cpu-fibonacci") {
        "\x1b[38;5;118m"
    } else if str_eq(name, "cpu-scalar-mix") {
        "\x1b[38;5;208m"
    } else if str_eq(name, "race-writer-1") {
        "\x1b[38;5;199m"
    } else if str_eq(name, "race-writer-2") {
        "\x1b[38;5;39m"
    } else if str_eq(name, "race-writer-3") {
        "\x1b[38;5;154m"
    } else {
        "\x1b[38;5;245m"
    }
}

/// The names of the threads that have a colour of their own.
pub open spec fn named_threads() -> Seq<Seq<char>> {
    seq![
        "main"@,
        "worker-sum-left"@,
        "worker-sum-right"@,
        "task-sum"@,
        "task-count-evens"@,
        "task-max"@,
        "sim-disk-read"@,
        "sim-http-get"@,
        "cpu-fibonacci"@,
        "cpu-scalar-mix"@,
        "race-writer-1"@,
        "race-writer-2"@,
        "race-writer-3"@,
    ]
}

/// The 256-colour palette index of the thread named `name`.
pub open spec fn thread_color_code(name: Seq<char>) -> nat {
    if name == "main"@ {
        255
    } else if name == "worker-sum-left"@ {
        204
    } else if name == "worker-sum-right"@ {
        83
    } else if name == "task-sum"@ {
        45
    } else if name == "task-count-evens"@ {
        220
    } else if name == "task-max"@ {
        141
    } else if name == "sim-disk-read"@ {
        33
    } else if name == "sim-http-get"@ {
        27
    } else if name == "cpu-fibonacci"@ {
        118
    } else if name == "cpu-scalar-mix"@ {
        208
    } else if name == "race-writer-1"@ {
        199
    } else if name == "race-writer-2"@ {
        39
    } else if name == "race-writer-3"@ {
        154
    } else {
        245
    }
}

/// The 256-colour foreground escape for palette index `code`: `ESC[38;5;` `code` `m`.
pub open spec fn color_escape(code: nat) -> Seq<char> {
    "\x1b[38;5;"@ + decimal(code) + "m"@
}

/// Every thread colour is the foreground escape of a palette index, and the index
/// is one of the 256 of the palette.
pub proof fn lemma_thread_color_form(name: Seq<char>)
    ensures
        thread_color(name) == color_escape(thread_color_code(name)),
        thread_color_code(name) <= 255,
{
    reveal_strlit("\x1b[38;5;");
    reveal_strlit("m");
    reveal_strlit("\x1b[38;5;255m");
    reveal_strlit("\x1b[38;5;204m");
    reveal_strlit("\x1b[38;5;83m");
    reveal_strlit("\x1b[38;5;45m");
    reveal_strlit("\x1b[38;5;220m");
    reveal_strlit("\x1b[38;5;141m");
    reveal_strlit("\x1b[38;5;33m");
    reveal_strlit("\x1b[38;5;27m");
    reveal_strlit("\x1b[38;5;118m");
    reveal_strlit("\x1b[38;5;208m");
    reveal_strlit("\x1b[38;5;199m");
    reveal_strlit("\x1b[38;5;39m");
    reveal_strlit("\x1b[38;5;154m");
    reveal_strlit("\x1b[38;5;245m");
    reveal_with_fuel(decimal, 3);
    assert("\x1b[38;5;255m"@ =~= color_escape(255));
    assert("\x1b[38;5;204m"@ =~= color_escape(204));
    assert("\x1b[38;5;83m"@ =~= color_escape(83));
    assert("\x1b[38;5;45m"@ =~= color_escape(45));
    assert("\x1b[38;5;220m"@ =~= color_escape(220));
    assert("\x1b[38;5;141m"@ =~= color_escape(141));
    assert("\x1b[38;5;33m"@ =~= color_escape(33));
    assert("\x1b[38;5;27m"@ =~= color_escape(27));
    assert("\x1b[38;5;118m"@ =~= color_escape(118));
    assert("\x1b[38;5;208m"@ =~= color_escape(208));
    assert("\x1b[38;5;199m"@ =~= color_escape(199));
    assert("\x1b[38;5;39m"@ =~= color_escape(39));
    assert("\x1b[38;5;154m"@ =~= color_escape(154));
    assert("\x1b[38;5;245m"@ =~= color_escape(245));
}

/// Different palette indices give different escapes.
pub proof fn lemma_color_escape_injective(a: nat, b: nat)
    requires
        color_escape(a) == color_escape(b),
    ensures
        a == b,
{
    reveal_strlit("\x1b[38;5;");
    reveal_strlit("m");
    let ea = color_escape(a);
    assert(ea.subrange(7, ea.len() - 1) =~= decimal(a));
    assert(ea.subrange(7, ea.len() - 1) =~= decimal(b));
    lemma_decimal_injective(a, b);
}

/// A thread with a colour of its own shares it with no other name: the named
/// threads have pairwise different colours, and none of them has the grey of
/// an unknown name.
pub proof fn lemma_thread_colors_distinct(a: Seq<char>, b: Seq<char>)
    requires
        named_threads().contains(a),
        a != b,
    ensures
        thread_color(a) != thread_color(b),
{
    lemma_thread_color_form(a);
    lemma_thread_color_form(b);
    if thread_color(a) == thread_color(b) {
        lemma_color_escape_injective(thread_color_code(a), thread_color_code(b));
        let i = choose|i: int| 0 <= i < named_threads().len() && named_threads()[i] == a;
        assert(named_threads()[i] == a);
    }
}

/// The escape that resets all colours and attributes.
pub const RESET: &'static str = "\x1b[0m";

/// The width of the thread-label column of a log line.
pub const LABEL_WIDTH: usize = 20;

/// `n` spaces.
pub open spec fn spaces(n: nat) -> Seq<char> {
    Seq::new(n, |i: int| ' ')
}

/// `label` right-aligned in a column of `LABEL_WIDTH` characters (longer labels
/// are kept whole).
pub open spec fn right_aligned(label: Seq<char>) -> Seq<char> {
    if label.len() < LABEL_WIDTH {
        spaces((LABEL_WIDTH - label.len()) as nat) + label
    } else {
        label
    }
}

/// A log line: the thread's colour, its right-aligned label in brackets, the
/// message, and the colour reset.
pub open spec fn log_line(label: Seq<char>, msg: Seq<char>) -> Seq<char> {
    thread_color(label) + "["@ + right_aligned(label) + "] "@ + msg + RESET@
}

/// Formats the log line for `msg` written by the thread labelled `label`.
pub fn format_log_line(label: &str, msg: &str) -> (r: String)
    ensures
        r@ == log_line(label@, msg@),
{
    let mut line = String::from_str(color_for_thread(label));
    line.append("[");
    let n = label.unicode_len();
    let ghost start = line@;
    if n < LABEL_WIDTH {
        let pad = LABEL_WIDTH - n;
        let mut i: usize = 0;
        proof {
            reveal_strlit(" ");
        }
        while i < pad
            invariant
                i <= pad,
                " "@ == seq![' '],
                line@ == start + spaces(i as nat),
            decreases pad - i,
        {
            line.append(" ");
            assert(spaces(i as nat).push(' ') =~= spaces((i + 1) as nat));
            i = i + 1;
        }
    }
    assert(n >= LABEL_WIDTH ==> line@ =~= start + spaces(0));
    line.append(label);
    line.append("] ");
    line.append(msg);
    line.append(RESET);
    assert(line@ =~= log_line(label@, msg@));
    line
}

/// The longest status text shown whole, in bytes.
pub const STATUS_MAX_BYTES: usize = 96;

/// How many trailing bytes a shortened status text keeps.
pub const STATUS_TAIL_BYTES: usize = 93;

/// A status text: whole when it has at most 96 bytes, otherwise `...` followed by
/// its last 93 bytes.
pub open spec fn status_text(s: Seq<char>) -> Seq<char> {
    let bytes = encode_utf8(s);
    if bytes.len() <= STATUS_MAX_BYTES {
        s
    } else {
        "..."@ + decode_utf8(bytes.subrange(bytes.len() - STATUS_TAIL_BYTES, bytes.len() as int))
    }
}

/// Whether the last 93 bytes of a long text start at a character boundary, as
/// shortening it needs.
pub open spec fn status_shortenable(s: &str) -> bool {
    s.spec_bytes().len() <= STATUS_MAX_BYTES || is_char_boundary(
        s.spec_bytes(),
        s.spec_bytes().len() - STATUS_TAIL_BYTES,
    )
}

/// Shortens a path text for the status line.
pub fn truncate_status(s: &str) -> (r: String)
    requires
        s.spec_bytes().len() <= usize::MAX,
        status_shortenable(s),
    ensures
        r@ == status_text(s@),
{
    let len = s.len();
    if len <= STATUS_MAX_BYTES {
        String::from_str(s)
    } else {
        let (_, tail) = s.split_at(len - STATUS_TAIL_BYTES);
        proof {
            encode_utf8_decode_utf8(tail@);
        }
        let mut r = String::from_str("...");
        r.append(tail);
        r
    }
}

/// The UTF-8 encoding of a concatenation is the concatenation of the encodings.
pub proof fn lemma_encode_utf8_concat(a: Seq<char>, b: Seq<char>)
    ensures
        encode_utf8(a + b) == encode_utf8(a) + encode_utf8(b),
    decreases a.len(),
{
    if a.len() == 0 {
        assert(a + b =~= b);
        assert(encode_utf8(a) + encode_utf8(b) =~= encode_utf8(b));
    } else {
        assert((a + b)[0] == a[0]);
        assert((a + b).drop_first() =~= a.drop_first() + b);
        lemma_encode_utf8_concat(a.drop_first(), b);
        assert(encode_utf8(a + b) =~= encode_utf8(a) + encode_utf8(b));
    }
}

/// A shortened status text fits the status line, so shortening it again keeps
/// it whole: shortening is idempotent on every text that it accepts.
pub proof fn lemma_status_text_idempotent(s: Seq<char>)
    requires
        encode_utf8(s).len() <= STATUS_MAX_BYTES || is_char_boundary(
            encode_utf8(s),
            encode_utf8(s).len() - STATUS_TAIL_BYTES,
        ),
    ensures
        encode_utf8(status_text(s)).len() <= STATUS_MAX_BYTES,
        status_text(status_text(s)) == status_text(s),
{
    let bytes = encode_utf8(s);
    if bytes.len() > STATUS_MAX_BYTES {
        let k = bytes.len() - STATUS_TAIL_BYTES;
        let tail = bytes.subrange(k, bytes.len() as int);
        encode_utf8_valid_utf8(s);
        valid_utf8_split(bytes, k);
        decode_utf8_encode_utf8(tail);
        reveal_strlit("...");
        reveal_with_fuel(encode_utf8, 4);
        assert(encode_utf8("..."@).len() == 3);
        lemma_encode_utf8_concat("..."@, decode_utf8(tail));
    }
}

} // verus!
