//! Rendering label-aligned output lines.
//!
//! Every line the tool prints has the same shape: the command's label padded
//! with trailing spaces to the width of the longest label, a four-character
//! marker column, and the line text.  The marker is `  | ` before a line of
//! the child's standard output, ` !| ` before a line of its standard error,
//! and `  = ` before the final status line, so error lines stand out while
//! the columns stay aligned.

use vstd::prelude::*;
use vstd::string::StrSliceExecFns;
use vstd::string::StringExecFns;

verus! {

/// `n` spaces.
pub open spec fn spaces(n: nat) -> Seq<char> {
    Seq::new(n, |i: int| ' ')
}

/// `label` extended with trailing spaces to at least `width` characters.
pub open spec fn padded_label(label: Seq<char>, width: int) -> Seq<char> {
    if label.len() >= width {
        label
    } else {
        label + spaces((width - label.len()) as nat)
    }
}

/// Marker column before a line of a child's standard output.
pub open spec fn stdout_marker() -> Seq<char> {
    seq![' ', ' ', '|', ' ']
}

/// Marker column before a line of a child's standard error.
pub open spec fn stderr_marker() -> Seq<char> {
    seq![' ', '!', '|', ' ']
}

/// Marker column before a command's final status line.
pub open spec fn status_marker() -> Seq<char> {
    seq![' ', ' ', '=', ' ']
}

/// One printed record: padded label, marker column, line text.
pub open spec fn output_line(
    label: Seq<char>,
    width: int,
    marker: Seq<char>,
    text: Seq<char>,
) -> Seq<char> {
    padded_label(label, width) + marker + text
}

/// The decimal digits of `n >= 0`, most significant first.
pub open spec fn decimal_digits(n: int) -> Seq<char>
    decreases n,
{
    if n < 10 {
        seq![digit_char(n)]
    } else {
        decimal_digits(n / 10).push(digit_char(n % 10))
    }
}

/// The character for one decimal digit.
pub open spec fn digit_char(d: int) -> char {
    if d == 0 {
        '0'
    } else if d == 1 {
        '1'
    } else if d == 2 {
        '2'
    } else if d == 3 {
        '3'
    } else if d == 4 {
        '4'
    } else if d == 5 {
        '5'
    } else if d == 6 {
        '6'
    } else if d == 7 {
        '7'
    } else if d == 8 {
        '8'
    } else {
        '9'
    }
}

/// The decimal rendering of an integer, with a leading `-` when negative.
pub open spec fn decimal_int(n: int) -> Seq<char> {
    if n < 0 {
        seq!['-'] + decimal_digits(-n)
    } else {
        decimal_digits(n)
    }
}

/// The one-character string for a decimal digit.
fn digit_str(d: u64) -> (r: &'static str)
    requires
        d < 10,
    ensures
        r@ == seq![digit_char(d as int)],
{
    if d == 0 {
        proof {
            reveal_strlit("0");
            assert("0"@ =~= seq![digit_char(0)]);
        }
        "0"
    } else if d == 1 {
        proof {
            reveal_strlit("1");
            assert("1"@ =~= seq![digit_char(1)]);
        }
        "1"
    } else if d == 2 {
        proof {
            reveal_strlit("2");
            assert("2"@ =~= seq![digit_char(2)]);
        }
        "2"
    } else if d == 3 {
        proof {
            reveal_strlit("3");
            assert("3"@ =~= seq![digit_char(3)]);
        }
        "3"
    } else if d == 4 {
        proof {
            reveal_strlit("4");
            assert("4"@ =~= seq![digit_char(4)]);
        }
        "4"
    } else if d == 5 {
        proof {
            reveal_strlit("5");
            assert("5"@ =~= seq![digit_char(5)]);
        }
        "5"
    } else if d == 6 {
        proof {
            reveal_strlit("6");
            assert("6"@ =~= seq![digit_char(6)]);
        }
        "6"
    } else if d == 7 {
        proof {
            reveal_strlit("7");
            assert("7"@ =~= seq![digit_char(7)]);
        }
        "7"
    } else if d == 8 {
        proof {
            reveal_strlit("8");
            assert("8"@ =~= seq![digit_char(8)]);
        }
        "8"
    } else {
        proof {
            reveal_strlit("9");
            assert("9"@ =~= seq![digit_char(9)]);
        }
        "9"
    }
}

/// Append the decimal digits of `n` to `out`.
pub fn append_decimal_u64(out: &mut String, n: u64)
    ensures
        final(out)@ == old(out)@ + decimal_digits(n as int),
    decreases n,
{
    let ghost base = out@;
    if n >= 10 {
        append_decimal_u64(out, n / 10);
    }
    let d = n % 10;
    let ghost mid = out@;
    out.append(digit_str(d));
    proof {
        if n >= 10 {
            assert(mid == base + decimal_digits(n as int / 10));
            assert(out@ =~= base + decimal_digits(n as int));
        } else {
            assert(out@ =~= base + decimal_digits(n as int));
        }
    }
}

/// Append the decimal rendering of `n`, sign included, to `out`.
pub fn append_decimal_i64(out: &mut String, n: i64)
    requires
        n > i64::MIN,
    ensures
        final(out)@ == old(out)@ + decimal_int(n as int),
{
    let ghost base = out@;
    if n < 0 {
        proof {
            reveal_strlit("-");
            assert("-"@ =~= seq!['-']);
        }
        out.append("-");
        append_decimal_u64(out, (-n) as u64);
        proof {
            assert(out@ =~= base + decimal_int(n as int));
        }
    } else {
        append_decimal_u64(out, n as u64);
    }
}

/// Build the fixed head of a line: the label padded to `width`, then the
/// marker column.
pub fn build_line_head(label: &str, width: usize, marker: &str) -> (r: String)
    ensures
        r@ == padded_label(label@, width as int) + marker@,
{
    let mut out = String::new();
    out.append(label);
    let len = label.unicode_len();
    let mut i: usize = len;
    proof {
        assert(out@ =~= label@ + spaces(0));
    }
    while i < width
        invariant
            len == label@.len(),
            len <= i,
            i <= width || i == len,
            out@ == label@ + spaces((i - len) as nat),
        decreases width - i,
    {
        proof {
            reveal_strlit(" ");
            assert(" "@ =~= seq![' ']);
        }
        out.append(" ");
        proof {
            assert(spaces((i + 1 - len) as nat) =~= spaces((i - len) as nat).push(' '));
            assert(out@ =~= label@ + spaces((i + 1 - len) as nat));
        }
        i = i + 1;
    }
    proof {
        if label@.len() >= width {
            assert(out@ =~= padded_label(label@, width as int));
        } else {
            assert(i == width);
            assert(out@ == padded_label(label@, width as int));
        }
    }
    out.append(marker);
    out
}

/// The line printed for one line of a child's standard output.
pub fn render_stdout_line(label: &str, width: usize, text: &str) -> (r: String)
    ensures
        r@ == output_line(label@, width as int, stdout_marker(), text@),
{
    let mut out = build_line_head(label, width, "  | ");
    proof {
        reveal_strlit("  | ");
        assert("  | "@ =~= stdout_marker());
    }
    out.append(text);
    proof {
        assert(out@ =~= output_line(label@, width as int, stdout_marker(), text@));
    }
    out
}

/// The line printed for one line of a child's standard error.
pub fn render_stderr_line(label: &str, width: usize, text: &str) -> (r: String)
    ensures
        r@ == output_line(label@, width as int, stderr_marker(), text@),
{
    let mut out = build_line_head(label, width, " !| ");
    proof {
        reveal_strlit(" !| ");
        assert(" !| "@ =~= stderr_marker());
    }
    out.append(text);
    proof {
        assert(out@ =~= output_line(label@, width as int, stderr_marker(), text@));
    }
    out
}

/// Every rendered line places its pieces at fixed columns: the padded label
/// in `0 .. width`, the marker in `width .. width + 4`, and the text after
/// that.  Lines rendered with the same width therefore align, whatever
/// their labels.
pub proof fn lemma_line_columns(label: Seq<char>, width: int, marker: Seq<char>, text: Seq<char>)
    requires
        label.len() <= width,
        marker.len() == 4,
    ensures
        output_line(label, width, marker, text).len() == width + 4 + text.len(),
        output_line(label, width, marker, text).subrange(0, width) == padded_label(label, width),
        output_line(label, width, marker, text).subrange(width, width + 4) == marker,
        output_line(label, width, marker, text).subrange(width + 4, width + 4 + text.len() as int)
            == text,
{
    let line = output_line(label, width, marker, text);
    assert(line.subrange(0, width) =~= padded_label(label, width));
    assert(line.subrange(width, width + 4) =~= marker);
    assert(line.subrange(width + 4, width + 4 + text.len() as int) =~= text);
}

/// The label can be read back from any rendered line: the characters before
/// the marker column are the label itself followed by spaces.
pub proof fn lemma_line_prefix_is_label(
    label: Seq<char>,
    width: int,
    marker: Seq<char>,
    text: Seq<char>,
)
    requires
        label.len() <= width,
    ensures
        output_line(label, width, marker, text).subrange(0, label.len() as int) == label,
        forall|j: int|
            label.len() <= j < width ==> output_line(label, width, marker, text)[j] == ' ',
{
    let line = output_line(label, width, marker, text);
    assert(line.subrange(0, label.len() as int) =~= label);
}

} // verus!
