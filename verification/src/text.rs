//! Joining names into labels, and counting lines.
use vstd::prelude::*;

verus! {

/// The parts joined with `sep` between consecutive parts.
pub open spec fn join(parts: Seq<Seq<char>>, sep: Seq<char>) -> Seq<char>
    decreases parts.len(),
{
    if parts.len() == 0 {
        Seq::empty()
    } else if parts.len() == 1 {
        parts[0]
    } else {
        join(parts.drop_last(), sep) + sep + parts.last()
    }
}

/// Appends `part` to `acc`, which holds `join(parts, sep)`, giving `join(parts.push(part), sep)`.
pub(crate) fn append_joined(acc: &mut String, count: usize, sep: &str, part: &str, Ghost(parts): Ghost<Seq<Seq<char>>>)
    requires
        old(acc)@ == join(parts, sep@),
        count == parts.len(),
    ensures
        final(acc)@ == join(parts.push(part@), sep@),
{
    proof {
        assert(parts.push(part@).drop_last() =~= parts);
    }
    if count > 0 {
        acc.append(sep);
    }
    acc.append(part);
    proof {
        if count == 0 {
            assert(acc@ =~= part@);
        }
    }
}


/// Number of `\n` characters in `s`.
pub open spec fn newline_count(s: Seq<char>) -> int
    decreases s.len(),
{
    if s.len() == 0 {
        0
    } else {
        newline_count(s.drop_last()) + if s.last() == '\n' { 1int } else { 0int }
    }
}

/// Number of lines in `s`, counted as `str::lines` splits them: every `\n`
/// ends a line, and text after the last `\n` makes one more line.
pub open spec fn line_count(s: Seq<char>) -> int {
    newline_count(s) + if s.len() > 0 && s.last() != '\n' { 1int } else { 0int }
}

/// Count the lines of a text.
pub fn count_lines(text: &str) -> (n: usize)
    ensures
        n as int == line_count(text@),
{
    broadcast use vstd::string::group_string_axioms;
    let ghost all = text@;
    let len = text.unicode_len();
    let mut newlines: usize = 0;
    let mut last_is_newline = false;
    let ghost mut seen: int = 0;
    for c in it: text.chars()
        invariant
            it.seq() == all,
            seen == it.index(),
            0 <= seen <= all.len(),
            newlines as int == newline_count(all.take(seen)),
            newlines <= seen,
            len as int == all.len(),
            seen > 0 && !last_is_newline ==> newlines < seen,
            seen > 0 ==> last_is_newline == (all[seen - 1] == '\n'),
    {
        proof {
            assert(all.take(seen + 1).drop_last() =~= all.take(seen));
            assert(c == all[seen]);
        }
        if c == '\n' {
            newlines = newlines + 1;
            last_is_newline = true;
        } else {
            last_is_newline = false;
        }
        proof {
            seen = seen + 1;
        }
    }
    proof {
        assert(all.take(all.len() as int) =~= all);
    }
    if len > 0 && !last_is_newline {
        newlines + 1
    } else {
        newlines
    }
}

} // verus!
