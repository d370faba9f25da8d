//! Short texts of the code-understanding panel: one-line excerpts and
//! elapsed-time badges.

use vstd::prelude::*;

use crate::text::{append_chars, chars_of, decimal, decimal_string, string_of};

verus! {

/// The text on one line: every `\n` becomes a space.
pub open spec fn single_line(text: Seq<char>) -> Seq<char> {
    text.map_values(|c: char| if c == '\n' {
        ' '
    } else {
        c
    })
}

/// A one-line excerpt: the text on one line, cut to `max_chars` characters
/// with `…` appended when it is longer.
pub open spec fn excerpt_view(text: Seq<char>, max_chars: nat) -> Seq<char> {
    let line = single_line(text);
    if line.len() <= max_chars {
        line
    } else {
        line.take(max_chars as int) + "…"@
    }
}

/// A one-line excerpt of a long text.
pub fn excerpt_line(text: &str, max_chars: usize) -> (r: String)
    ensures
        r@ == excerpt_view(text@, max_chars as nat),
{
    let chars = chars_of(text);
    let mut line: Vec<char> = Vec::new();
    let mut i: usize = 0;
    while i < chars.len()
        invariant
            0 <= i <= chars.len(),
            line@ == single_line(chars@.take(i as int)),
        decreases chars.len() - i,
    {
        let c = if chars[i] == '\n' {
            ' '
        } else {
            chars[i]
        };
        line.push(c);
        proof {
            assert(single_line(chars@.take(i + 1)) =~= single_line(chars@.take(i as int)).push(c));
        }
        i = i + 1;
    }
    assert(chars@.take(chars@.len() as int) =~= chars@);
    if line.len() <= max_chars {
        return string_of(&line);
    }
    let mut cut = crate::text::copy_range(&line, 0, max_chars);
    assert(cut@ =~= line@.take(max_chars as int));
    append_chars(&mut cut, &chars_of("…"));
    string_of(&cut)
}

/// Two digits, with a leading zero below ten.
pub open spec fn two_digits(n: nat) -> Seq<char> {
    if n < 10 {
        "0"@ + decimal(n)
    } else {
        decimal(n)
    }
}

/// The elapsed-time badge: `m:ss` as `mm:ss`, and `h:mm:ss` from an hour on.
pub open spec fn elapsed_view(total_seconds: nat) -> Seq<char> {
    let hours = total_seconds / 3600;
    let minutes = (total_seconds % 3600) / 60;
    let seconds = total_seconds % 60;
    if hours > 0 {
        decimal(hours) + ":"@ + two_digits(minutes) + ":"@ + two_digits(seconds)
    } else {
        two_digits(minutes) + ":"@ + two_digits(seconds)
    }
}

fn push_two_digits(out: &mut Vec<char>, n: u64)
    requires
        n < 100,
    ensures
        final(out)@ == old(out)@ + two_digits(n as nat),
{
    if n < 10 {
        append_chars(out, &chars_of("0"));
    }
    let digits = chars_of(decimal_string(n).as_str());
    append_chars(out, &digits);
}

/// The elapsed-time badge of a running task.
pub fn understanding_elapsed_label(total_seconds: u64) -> (r: String)
    ensures
        r@ == elapsed_view(total_seconds as nat),
{
    let hours = total_seconds / 3600;
    let minutes = (total_seconds % 3600) / 60;
    let seconds = total_seconds % 60;
    let mut out: Vec<char> = Vec::new();
    if hours > 0 {
        let h = decimal_string(hours);
        append_chars(&mut out, &chars_of(h.as_str()));
        append_chars(&mut out, &chars_of(":"));
    }
    push_two_digits(&mut out, minutes);
    append_chars(&mut out, &chars_of(":"));
    push_two_digits(&mut out, seconds);
    string_of(&out)
}

} // verus!
