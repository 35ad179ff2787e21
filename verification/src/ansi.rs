//! A terminal's report, made fit for a popup.

use crate::text::{
    chars_of, is_white, join, joined, law_trimming_takes_the_white_space_around, text_of, texts,
    trim_end, trim_run, trim_start, trimmed,
};
use crate::sort::in_places;
use vstd::prelude::*;

verus! {

/// The character that begins an escape sequence.
pub open spec fn escape() -> char {
    '\u{1b}'
}

/// Whether a character ends an escape sequence.
pub open spec fn ends_sequence(c: char) -> bool {
    '@' <= c <= '~'
}

/// What follows the end of an escape sequence; nothing, if it does not end.
pub open spec fn after_sequence(s: Seq<char>) -> Seq<char>
    decreases s.len(),
{
    if s.len() == 0 {
        s
    } else if ends_sequence(s[0]) {
        s.drop_first()
    } else {
        after_sequence(s.drop_first())
    }
}

/// A text without its escape sequences: an escape, a bracket and everything up to the final
/// character; or an escape and whatever else follows it.
pub open spec fn stripped(s: Seq<char>) -> Seq<char>
    decreases s.len(),
{
    proof {
        lemma_after_sequence(s.skip(2));
    }
    if s.len() == 0 {
        s
    } else if s[0] != escape() {
        seq![s[0]] + stripped(s.drop_first())
    } else if s.len() == 1 {
        Seq::empty()
    } else if s[1] == '[' {
        stripped(after_sequence(s.skip(2)))
    } else {
        stripped(s.skip(2))
    }
}

/// What follows an escape sequence is part of the text.
pub proof fn lemma_after_sequence(s: Seq<char>)
    ensures
        after_sequence(s).len() <= s.len(),
        forall|c: char| #[trigger] after_sequence(s).contains(c) ==> s.contains(c),
    decreases s.len(),
{
    if s.len() > 0 {
        let rest = s.drop_first();
        lemma_after_sequence(rest);
        assert forall|c: char| #[trigger] after_sequence(s).contains(c) implies s.contains(c) by {
            assert(rest.contains(c));
            let i = choose|i: int| 0 <= i < rest.len() && rest[i] == c;
            assert(s[i + 1] == c);
        }
    }
}

/// Remove escape sequences. Narrow by design: this only ever sees the compiler's own output,
/// which uses simple colour codes.
pub fn strip_ansi(s: &str) -> (out: String)
    ensures
        out@ == stripped(s@),
{
    let chars: Vec<char> = chars_of(s);
    let n: usize = chars.len();
    let mut out: String = String::new();
    let mut i: usize = 0;
    proof {
        assert(chars@.skip(0) =~= s@);
        assert(out@ + stripped(s@) =~= stripped(s@));
    }
    while i < n
        invariant
            n == chars@.len(),
            chars@ == s@,
            i <= n,
            stripped(s@) == out@ + stripped(chars@.skip(i as int)),
        decreases n - i,
    {
        let ghost rest = chars@.skip(i as int);
        proof {
            assert(rest.drop_first() =~= chars@.skip(i + 1));
            if i + 1 < n {
                assert(rest.skip(2) =~= chars@.skip(i + 2));
            }
        }
        if chars[i] != '\u{1b}' {
            let ghost before = out@;
            out.push(chars[i]);
            proof {
                assert(before + (seq![rest[0]] + stripped(rest.drop_first())) =~= out@ + stripped(
                    rest.drop_first(),
                ));
            }
            i = i + 1;
        } else if i + 1 == n {
            i = i + 1;
            proof {
                assert(chars@.skip(i as int) =~= Seq::<char>::empty());
            }
        } else if chars[i + 1] == '[' {
            let ghost start = i as int;
            i = i + 2;
            let mut ended: bool = false;
            while !ended && i < n
                invariant
                    n == chars@.len(),
                    start < i <= n,
                    rest.len() >= 2,
                    after_sequence(rest.skip(2)) == (if ended {
                        chars@.skip(i as int)
                    } else {
                        after_sequence(chars@.skip(i as int))
                    }),
                decreases n - i,
            {
                proof {
                    assert(chars@.skip(i as int).drop_first() =~= chars@.skip(i + 1));
                }
                if '@' <= chars[i] && chars[i] <= '~' {
                    ended = true;
                }
                i = i + 1;
            }
            proof {
                if !ended {
                    assert(chars@.skip(i as int) =~= Seq::<char>::empty());
                }
                assert(after_sequence(rest.skip(2)) =~= chars@.skip(i as int));
            }
        } else {
            i = i + 2;
        }
    }
    proof {
        assert(chars@.skip(n as int) =~= Seq::<char>::empty());
        assert(out@ + Seq::<char>::empty() =~= out@);
    }
    out
}

/// No escape is left in a stripped text, and nothing is in it that was not in the text.
pub proof fn law_stripping_leaves_no_escape(s: Seq<char>)
    ensures
        !stripped(s).contains(escape()),
        forall|c: char| #[trigger] stripped(s).contains(c) ==> s.contains(c),
    decreases s.len(),
{
    if s.len() > 0 {
        if s[0] != escape() {
            let rest = s.drop_first();
            law_stripping_leaves_no_escape(rest);
            let out = stripped(s);
            assert forall|c: char| #[trigger] out.contains(c) implies s.contains(c) && c
                != escape() by {
                let i = choose|i: int| 0 <= i < out.len() && out[i] == c;
                if i > 0 {
                    assert(stripped(rest)[i - 1] == c);
                    assert(stripped(rest).contains(c));
                    let j = choose|j: int| 0 <= j < rest.len() && rest[j] == c;
                    assert(s[j + 1] == c);
                } else {
                    assert(s[0] == c);
                }
            }
        } else if s.len() > 1 {
            let from = if s[1] == '[' {
                after_sequence(s.skip(2))
            } else {
                s.skip(2)
            };
            lemma_after_sequence(s.skip(2));
            law_stripping_leaves_no_escape(from);
            assert forall|c: char| #[trigger] stripped(s).contains(c) implies s.contains(c) by {
                assert(stripped(from).contains(c));
                assert(s.skip(2).contains(c));
                let j = choose|j: int| 0 <= j < s.skip(2).len() && s.skip(2)[j] == c;
                assert(s[j + 2] == c);
            }
        }
    }
}

/// A text without escapes is left alone.
pub proof fn law_stripping_leaves_plain_text_alone(s: Seq<char>)
    requires
        !s.contains(escape()),
    ensures
        stripped(s) == s,
    decreases s.len(),
{
    if s.len() > 0 {
        let rest = s.drop_first();
        assert(s.contains(s[0]));
        assert forall|c: char| rest.contains(c) implies s.contains(c) by {
            let j = choose|j: int| 0 <= j < rest.len() && rest[j] == c;
            assert(s[j + 1] == c);
        }
        law_stripping_leaves_plain_text_alone(rest);
        assert(seq![s[0]] + rest =~= s);
    }
}

/// The lines of a text, without the line breaks.
pub open spec fn lines_in(s: Seq<char>) -> Seq<Seq<char>>
    decreases s.len(),
{
    if s.len() == 0 {
        seq![Seq::empty()]
    } else if s.last() == '\n' {
        lines_in(s.drop_last()).push(Seq::empty())
    } else {
        let before = lines_in(s.drop_last());
        before.drop_last().push(before.last().push(s.last()))
    }
}

proof fn lemma_lines(s: Seq<char>)
    ensures
        lines_in(s).len() > 0,
        forall|i: int, c: char|
            0 <= i < lines_in(s).len() && #[trigger] lines_in(s)[i].contains(c) ==> c != '\n'
                && s.contains(c),
    decreases s.len(),
{
    if s.len() > 0 {
        let init = s.drop_last();
        lemma_lines(init);
        let before = lines_in(init);
        let lines = lines_in(s);
        assert forall|i: int, c: char|
            0 <= i < lines.len() && #[trigger] lines[i].contains(c) implies c != '\n'
            && s.contains(c) by {
            if i < before.len() - 1 || s.last() == '\n' {
                if i < before.len() {
                    assert(before[i].contains(c));
                    let k = choose|k: int| 0 <= k < init.len() && init[k] == c;
                    assert(s[k] == c);
                }
            } else {
                let k = choose|k: int| 0 <= k < lines[i].len() && lines[i][k] == c;
                if k < before.last().len() {
                    assert(before[before.len() - 1][k] == c);
                    assert(before[before.len() - 1].contains(c));
                    let j = choose|j: int| 0 <= j < init.len() && init[j] == c;
                    assert(s[j] == c);
                } else {
                    assert(s[s.len() - 1] == c);
                }
            }
        }
    }
}

/// Whether a text begins with another.
pub open spec fn begins(s: Seq<char>, with: Seq<char>) -> bool {
    with.len() <= s.len() && s.take(with.len() as int) == with
}

/// Whether a line begins the part of a report that is about debugging the compiler.
pub open spec fn is_trailer(line: Seq<char>) -> bool {
    begins(line, "Location:"@) || begins(line, "Backtrace omitted"@)
}

/// A line without the header it begins with.
pub open spec fn without_header(line: Seq<char>) -> Seq<char> {
    if begins(line, "Error:"@) {
        trimmed(line.skip("Error:"@.len() as int))
    } else {
        trimmed(line)
    }
}

/// Whether a character is a decimal digit.
pub open spec fn is_digit(c: char) -> bool {
    '0' <= c <= '9'
}

/// How many digits a text begins with.
pub open spec fn digits(s: Seq<char>) -> nat
    decreases s.len(),
{
    if s.len() > 0 && is_digit(s[0]) {
        1 + digits(s.drop_first())
    } else {
        0
    }
}

/// A line without the number that counts it: digits, a colon and a space.
pub open spec fn without_number(line: Seq<char>) -> Seq<char> {
    let n = digits(line) as int;
    if n > 0 && n + 2 <= line.len() && line[n] == ':' && line[n + 1] == ' ' {
        trimmed(line.skip(n + 2))
    } else {
        line
    }
}

/// What a line of a report says.
pub open spec fn message_of(line: Seq<char>) -> Seq<char> {
    without_number(without_header(trimmed(line)))
}

/// What the lines of a report say, up to the trailer; lines that say nothing are left out.
pub open spec fn causes(lines: Seq<Seq<char>>) -> Seq<Seq<char>>
    decreases lines.len(),
{
    if lines.len() == 0 || is_trailer(trimmed(lines[0])) {
        Seq::empty()
    } else if message_of(lines[0]).len() == 0 {
        causes(lines.drop_first())
    } else {
        seq![message_of(lines[0])] + causes(lines.drop_first())
    }
}

/// The longest message that is shown whole, in characters.
pub const LONGEST: usize = 400;

/// A text cut to the length that is shown, with a mark where it was cut.
pub open spec fn shortened(s: Seq<char>) -> Seq<char> {
    if s.len() > LONGEST {
        s.take(LONGEST as int) + "\u{2026}"@
    } else {
        s
    }
}

/// A report squeezed into one line.
pub open spec fn condensed(report: Seq<char>) -> Seq<char> {
    shortened(joined(causes(lines_in(stripped(report))), " "@))
}

/// The lines of a text.
fn split_lines(s: &str) -> (lines: Vec<Vec<char>>)
    ensures
        lines@.len() == lines_in(s@).len(),
        forall|i: int| 0 <= i < lines@.len() ==> (#[trigger] lines@[i])@ == lines_in(s@)[i],
{
    let mut lines: Vec<Vec<char>> = Vec::new();
    let mut line: Vec<char> = Vec::new();
    proof {
        assert(s@.take(0) =~= Seq::<char>::empty());
    }
    for c in it: s.chars()
        invariant
            it.seq() == s@,
            lines@.len() + 1 == lines_in(s@.take(it.index() as int)).len(),
            line@ == lines_in(s@.take(it.index() as int)).last(),
            forall|i: int|
                0 <= i < lines@.len() ==> (#[trigger] lines@[i])@ == lines_in(
                    s@.take(it.index() as int),
                )[i],
    {
        let ghost k = it.index() as int;
        proof {
            assert(s@.take(k + 1).drop_last() =~= s@.take(k));
            assert(s@.take(k + 1).last() == c);
        }
        if c == '\n' {
            lines.push(line);
            line = Vec::new();
        } else {
            line.push(c);
        }
    }
    proof {
        assert(s@.take(s@.len() as int) =~= s@);
    }
    lines.push(line);
    lines
}

/// Whether characters from `from` on begin with a text, before `to`.
fn begins_at(chars: &Vec<char>, from: usize, to: usize, with: &str) -> (n: Option<usize>)
    requires
        from <= to <= chars@.len(),
    ensures
        n is Some <==> begins(chars@.subrange(from as int, to as int), with@),
        n matches Some(k) ==> k == with@.len(),
{
    let want: Vec<char> = chars_of(with);
    let n: usize = want.len();
    let ghost line = chars@.subrange(from as int, to as int);
    if n > to - from {
        return None;
    }
    let mut i: usize = 0;
    while i < n
        invariant
            from <= to <= chars@.len(),
            n <= to - from,
            n == want@.len(),
            want@ == with@,
            i <= n,
            line == chars@.subrange(from as int, to as int),
            forall|j: int| 0 <= j < i ==> line[j] == #[trigger] want@[j],
        decreases n - i,
    {
        if chars[from + i] != want[i] {
            proof {
                assert(line[i as int] != want@[i as int]);
                assert(line.take(n as int)[i as int] == line[i as int]);
            }
            return None;
        }
        i = i + 1;
    }
    proof {
        assert(line.take(n as int) =~= with@);
    }
    Some(n)
}

proof fn lemma_trim_part(s: Seq<char>)
    ensures
        forall|c: char| #[trigger] trimmed(s).contains(c) ==> s.contains(c),
{
    lemma_trim_start_part(s);
    lemma_trim_end_part(trim_start(s));
}

proof fn lemma_trim_start_part(s: Seq<char>)
    ensures
        forall|c: char| #[trigger] trim_start(s).contains(c) ==> s.contains(c),
    decreases s.len(),
{
    if s.len() > 0 {
        let rest = s.drop_first();
        lemma_trim_start_part(rest);
        assert forall|c: char| #[trigger] trim_start(s).contains(c) implies s.contains(c) by {
            if trim_start(s) != s {
                assert(trim_start(rest).contains(c));
                let i = choose|i: int| 0 <= i < rest.len() && rest[i] == c;
                assert(s[i + 1] == c);
            }
        }
    }
}

proof fn lemma_trim_end_part(s: Seq<char>)
    ensures
        forall|c: char| #[trigger] trim_end(s).contains(c) ==> s.contains(c),
    decreases s.len(),
{
    if s.len() > 0 {
        let rest = s.drop_last();
        lemma_trim_end_part(rest);
        assert forall|c: char| #[trigger] trim_end(s).contains(c) implies s.contains(c) by {
            if trim_end(s) != s {
                assert(trim_end(rest).contains(c));
                let i = choose|i: int| 0 <= i < rest.len() && rest[i] == c;
                assert(s[i] == c);
            }
        }
    }
}

/// What a line says, as a run of it; none for a line of the trailer.
fn message_in(line: &Vec<char>) -> (run: Option<(usize, usize)>)
    ensures
        run is None <==> is_trailer(trimmed(line@)),
        run matches Some((a, b)) ==> a <= b <= line@.len() && line@.subrange(a as int, b as int)
            == message_of(line@),
{
    let (a, b): (usize, usize) = trim_run(line, 0, line.len());
    proof {
        assert(line@.subrange(0, line@.len() as int) =~= line@);
    }
    if begins_at(line, a, b, "Location:").is_some() || begins_at(
        line,
        a,
        b,
        "Backtrace omitted",
    ).is_some() {
        return None;
    }
    let ghost whole = line@.subrange(a as int, b as int);
    let from: usize = match begins_at(line, a, b, "Error:") {
        Some(n) => {
            proof {
                assert(whole.skip(n as int) =~= line@.subrange(a + n, b as int));
            }
            a + n
        },
        None => a,
    };
    let (c, d): (usize, usize) = trim_run(line, from, b);
    let ghost bare = line@.subrange(c as int, d as int);
    proof {
        assert(bare == without_header(whole));
    }
    let mut k: usize = c;
    proof {
        assert(line@.subrange(c as int, d as int).skip(0) =~= bare);
    }
    while k < d && '0' <= line[k] && line[k] <= '9'
        invariant
            c <= k <= d <= line@.len(),
            bare == line@.subrange(c as int, d as int),
            digits(bare) == (k - c) + digits(bare.skip(k - c)),
        decreases d - k,
    {
        proof {
            assert(bare.skip(k - c).drop_first() =~= bare.skip(k - c + 1));
            assert(bare.skip(k - c)[0] == line@[k as int]);
        }
        k = k + 1;
    }
    proof {
        if k < d {
            assert(bare.skip(k - c)[0] == line@[k as int]);
        }
        assert(digits(bare) == k - c);
    }
    if k > c && d - k >= 2 && line[k] == ':' && line[k + 1] == ' ' {
        proof {
            assert(bare[k - c] == line@[k as int] && bare[k - c + 1] == line@[k + 1]);
            assert(bare.skip(k - c + 2) =~= line@.subrange(k + 2, d as int));
        }
        Some(trim_run(line, k + 2, d))
    } else {
        proof {
            if k - c + 2 <= bare.len() {
                assert(bare[k - c] == line@[k as int] && bare[k - c + 1] == line@[k + 1]);
            }
        }
        Some((c, d))
    }
}

/// A multi-line report squeezed into one line fit for a popup.
///
/// The compiler formats for a terminal: a numbered cause chain, a `Location:` block, and advice
/// about backtraces. Only the causes say anything the user can act on, and an editor
/// notification shows one string, so everything from `Location:` down is dropped and the rest is
/// joined. Escape sequences are stripped as well as suppressed, because asking for no colour is
/// a request the compiler is free to ignore.
pub fn condense(stderr: &str) -> (out: String)
    ensures
        out@ == condensed(stderr@),
{
    let plain: String = strip_ansi(stderr);
    let lines: Vec<Vec<char>> = split_lines(plain.as_str());
    let ghost all = lines_in(plain@);
    let mut out: Vec<String> = Vec::new();
    let n: usize = lines.len();
    let mut i: usize = 0;
    let mut more: bool = true;
    proof {
        assert(all.skip(0) =~= all);
        assert(texts(out@) + causes(all) =~= causes(all));
    }
    while more && i < n
        invariant
            n == lines@.len(),
            n == all.len(),
            i <= n,
            forall|j: int| 0 <= j < n ==> (#[trigger] lines@[j])@ == all[j],
            causes(all) == texts(out@) + (if more {
                causes(all.skip(i as int))
            } else {
                Seq::empty()
            }),
        decreases n - i,
    {
        proof {
            assert(all.skip(i as int)[0] == all[i as int]);
            assert(all.skip(i as int).drop_first() =~= all.skip(i + 1));
        }
        match message_in(&lines[i]) {
            None => {
                more = false;
            },
            Some((a, b)) => {
                if a < b {
                    let message: String = text_of(&lines[i], a, b);
                    let ghost before = out@;
                    out.push(message);
                    proof {
                        let rest = causes(all.skip(i + 1));
                        assert(texts(out@) =~= texts(before).push(message@));
                        assert(texts(before) + (seq![message@] + rest) =~= texts(out@) + rest);
                    }
                }
            },
        }
        i = i + 1;
    }
    proof {
        if more {
            assert(all.skip(n as int) =~= Seq::<Seq<char>>::empty());
        }
        assert(texts(out@) + Seq::<Seq<char>>::empty() =~= texts(out@));
    }
    let whole: String = join(&out, " ");
    let chars: Vec<char> = chars_of(whole.as_str());
    if chars.len() > LONGEST {
        let mut short: String = text_of(&chars, 0, LONGEST);
        short.append("\u{2026}");
        proof {
            assert(chars@.subrange(0, LONGEST as int) =~= whole@.take(LONGEST as int));
        }
        short
    } else {
        whole
    }
}

proof fn lemma_message_part(line: Seq<char>)
    ensures
        forall|c: char| #[trigger] message_of(line).contains(c) ==> line.contains(c),
{
    let a = trimmed(line);
    lemma_trim_part(line);
    let header = "Error:"@.len() as int;
    let b = without_header(a);
    assert forall|c: char| #[trigger] b.contains(c) implies a.contains(c) by {
        if begins(a, "Error:"@) {
            lemma_trim_part(a.skip(header));
            let i = choose|i: int| 0 <= i < a.skip(header).len() && a.skip(header)[i] == c;
            assert(a[i + header] == c);
        } else {
            lemma_trim_part(a);
        }
    }
    let n = digits(b) as int + 2;
    assert forall|c: char| #[trigger] message_of(line).contains(c) implies line.contains(c) by {
        if message_of(line) != b {
            lemma_trim_part(b.skip(n));
            let i = choose|i: int| 0 <= i < b.skip(n).len() && b.skip(n)[i] == c;
            assert(b[i + n] == c);
        }
        assert(b.contains(c));
        assert(a.contains(c));
    }
}

proof fn lemma_causes_part(lines: Seq<Seq<char>>, bad: char)
    requires
        forall|i: int| 0 <= i < lines.len() ==> !(#[trigger] lines[i]).contains(bad),
    ensures
        forall|i: int| 0 <= i < causes(lines).len() ==> !(#[trigger] causes(lines)[i]).contains(bad),
    decreases lines.len(),
{
    if lines.len() > 0 && !is_trailer(trimmed(lines[0])) {
        let rest = lines.drop_first();
        assert forall|i: int| 0 <= i < rest.len() implies !(#[trigger] rest[i]).contains(bad) by {
            assert(rest[i] == lines[i + 1]);
        }
        lemma_causes_part(rest, bad);
        lemma_message_part(lines[0]);
        let all = causes(lines);
        assert forall|i: int| 0 <= i < all.len() implies !(#[trigger] all[i]).contains(bad) by {
            if message_of(lines[0]).len() == 0 {
                assert(all[i] == causes(rest)[i]);
            } else if i > 0 {
                assert(all[i] == causes(rest)[i - 1]);
            } else {
                assert(!lines[0].contains(bad));
                assert(!message_of(lines[0]).contains(bad));
            }
        }
    }
}

proof fn lemma_joined_part(parts: Seq<Seq<char>>, sep: Seq<char>, bad: char)
    requires
        forall|i: int| 0 <= i < parts.len() ==> !(#[trigger] parts[i]).contains(bad),
        !sep.contains(bad),
    ensures
        !joined(parts, sep).contains(bad),
    decreases parts.len(),
{
    if parts.len() > 1 {
        let init = parts.drop_last();
        assert forall|i: int| 0 <= i < init.len() implies !(#[trigger] init[i]).contains(bad) by {
            assert(init[i] == parts[i]);
        }
        lemma_joined_part(init, sep, bad);
        let head = joined(init, sep);
        let tail = parts.last();
        assert(!parts[parts.len() - 1].contains(bad));
        if joined(parts, sep).contains(bad) {
            let all = head + sep + tail;
            let i = choose|i: int| 0 <= i < all.len() && all[i] == bad;
            if i < head.len() {
                assert(head[i] == bad);
            } else if i < head.len() + sep.len() {
                assert(sep[i - head.len()] == bad);
            } else {
                assert(tail[i - head.len() - sep.len()] == bad);
            }
        }
    }
}

/// A condensed report is one line without escapes, and no longer than what is shown plus the
/// mark.
pub proof fn law_a_condensed_report_is_one_short_line(report: Seq<char>)
    ensures
        !condensed(report).contains('\n'),
        !condensed(report).contains(escape()),
        condensed(report).len() <= LONGEST + 1,
{
    let plain = stripped(report);
    let lines = lines_in(plain);
    reveal_strlit(" ");
    reveal_strlit("\u{2026}");
    law_stripping_leaves_no_escape(report);
    lemma_lines(plain);
    lemma_causes_part(lines, '\n');
    lemma_causes_part(lines, escape());
    let whole = joined(causes(lines), " "@);
    lemma_joined_part(causes(lines), " "@, '\n');
    lemma_joined_part(causes(lines), " "@, escape());
    let out = condensed(report);
    assert forall|c: char| c == '\n' || c == escape() implies !out.contains(c) by {
        if out.contains(c) {
            let i = choose|i: int| 0 <= i < out.len() && out[i] == c;
            if whole.len() > LONGEST {
                if i < LONGEST {
                    assert(whole[i] == c);
                }
            } else {
                assert(whole[i] == c);
            }
        }
    }
}

proof fn lemma_stripped_after_plain(a: Seq<char>, s: Seq<char>)
    requires
        !a.contains('\u{1b}'),
    ensures
        stripped(a + s) == a + stripped(s),
    decreases a.len(),
{
    if a.len() == 0 {
        assert(a + s =~= s);
        assert(a + stripped(s) =~= stripped(s));
    } else {
        let rest = a.drop_first();
        assert(a.contains(a[0]));
        assert forall|c: char| rest.contains(c) implies a.contains(c) by {
            let j = choose|j: int| 0 <= j < rest.len() && rest[j] == c;
            assert(a[j + 1] == c);
        }
        lemma_stripped_after_plain(rest, s);
        assert((a + s).drop_first() =~= rest + s);
        assert(stripped(a + s) =~= a + stripped(s));
    }
}

proof fn lemma_after_parameters(parameters: Seq<char>, rest: Seq<char>)
    requires
        forall|i: int|
            0 <= i < parameters.len() ==> !('@' <= #[trigger] parameters[i] && parameters[i]
                <= '~'),
    ensures
        after_sequence(parameters + rest) == after_sequence(rest),
    decreases parameters.len(),
{
    if parameters.len() == 0 {
        assert(parameters + rest =~= rest);
    } else {
        let less = parameters.drop_first();
        assert((parameters + rest).drop_first() =~= less + rest);
        assert((parameters + rest)[0] == parameters[0]);
        assert forall|i: int| 0 <= i < less.len() implies !('@' <= #[trigger] less[i] && less[i]
            <= '~') by {
            assert(less[i] == parameters[i + 1]);
        }
        lemma_after_parameters(less, rest);
    }
}

/// An escape sequence is taken out, from the escape and the bracket to the character that ends
/// it, and what stands around it stays; a sequence that never ends takes the rest with it. An
/// escape before any other character is taken out with that character, and one at the end alone.
pub proof fn law_an_escape_sequence_is_taken_out(
    before: Seq<char>,
    parameters: Seq<char>,
    end: char,
    other: char,
    rest: Seq<char>,
)
    requires
        !before.contains('\u{1b}'),
        forall|i: int|
            0 <= i < parameters.len() ==> !('@' <= #[trigger] parameters[i] && parameters[i]
                <= '~'),
        '@' <= end && end <= '~',
        other != '[',
    ensures
        stripped(before + (seq!['\u{1b}', '['] + (parameters + (seq![end] + rest)))) == before
            + stripped(rest),
        stripped(before + (seq!['\u{1b}', '['] + parameters)) == before,
        stripped(before + (seq!['\u{1b}', other] + rest)) == before + stripped(rest),
        stripped(before + seq!['\u{1b}']) == before,
{
    let opening = seq!['\u{1b}', '['];
    let tail = parameters + (seq![end] + rest);
    let whole = opening + tail;
    lemma_stripped_after_plain(before, whole);
    assert(whole[0] == '\u{1b}' && whole[1] == '[');
    assert(whole.skip(2) =~= tail);
    lemma_after_parameters(parameters, seq![end] + rest);
    assert((seq![end] + rest).drop_first() =~= rest);
    let open = opening + parameters;
    lemma_stripped_after_plain(before, open);
    assert(open.skip(2) =~= parameters);
    lemma_after_parameters(parameters, Seq::empty());
    assert(parameters + Seq::<char>::empty() =~= parameters);
    assert(stripped(Seq::<char>::empty()) =~= Seq::empty());
    assert(before + Seq::<char>::empty() =~= before);
    let short = seq!['\u{1b}', other] + rest;
    lemma_stripped_after_plain(before, short);
    assert(short[0] == '\u{1b}' && short[1] == other);
    assert(short.skip(2) =~= rest);
    lemma_stripped_after_plain(before, seq!['\u{1b}']);
}

/// The lines of a text joined by line breaks are the text again, and none has a break in it.
pub proof fn law_lines_joined_are_the_text(s: Seq<char>)
    ensures
        joined(lines_in(s), "\n"@) == s,
        lines_in(s).len() > 0,
        forall|i: int|
            0 <= i < lines_in(s).len() ==> !(#[trigger] lines_in(s)[i]).contains('\n'),
    decreases s.len(),
{
    reveal_strlit("\n");
    lemma_lines(s);
    assert forall|i: int| 0 <= i < lines_in(s).len() implies !(
    #[trigger] lines_in(s)[i]).contains('\n') by {
        if lines_in(s)[i].contains('\n') {
            assert(false);
        }
    }
    if s.len() > 0 {
        let init = s.drop_last();
        let before = lines_in(init);
        let lines = lines_in(s);
        law_lines_joined_are_the_text(init);
        if s.last() == '\n' {
            assert(lines.drop_last() =~= before);
            assert(joined(lines, "\n"@) =~= s);
        } else {
            let last = before.last();
            assert(lines.drop_last() =~= before.drop_last());
            assert(lines.last() == last.push(s.last()));
            assert(init.push(s.last()) =~= s);
            if before.len() == 1 {
                assert(lines.len() == 1);
                assert(lines[0] == last.push(s.last()));
                assert(before[0] == last);
            } else {
                let head = joined(before.drop_last(), "\n"@) + "\n"@;
                assert(init == head + last);
                assert(joined(lines, "\n"@) == head + last.push(s.last()));
                assert(head + last.push(s.last()) =~= (head + last).push(s.last()));
            }
        }
    }
}

/// A text begins with another when it is that and something after it.
pub proof fn law_what_a_text_begins_with(s: Seq<char>, with: Seq<char>, rest: Seq<char>)
    ensures
        begins(with + rest, with),
        begins(s, with) ==> s == with + s.skip(with.len() as int),
{
    assert((with + rest).take(with.len() as int) =~= with);
    if begins(s, with) {
        assert(s =~= s.take(with.len() as int) + s.skip(with.len() as int));
    }
}

/// Every cause that a report names is kept, in order: the message of every line that has one, up
/// to the trailer that the report ends in, and nothing else. `end` is where the trailer begins,
/// and `at` lists the lines.
pub proof fn law_every_cause_is_kept(lines: Seq<Seq<char>>) -> (kept: (int, Seq<int>))
    ensures
        ({
            let (end, at) = kept;
            &&& 0 <= end <= lines.len()
            &&& forall|i: int|
                0 <= i < end ==> !begins(trimmed(#[trigger] lines[i]), "Location:"@) && !begins(
                    trimmed(lines[i]),
                    "Backtrace omitted"@,
                )
            &&& end < lines.len() ==> begins(trimmed(lines[end]), "Location:"@) || begins(
                trimmed(lines[end]),
                "Backtrace omitted"@,
            )
            &&& in_places(at, end)
            &&& forall|i: int|
                0 <= i < end ==> (#[trigger] at.contains(i) <==> message_of(lines[i]).len() > 0)
            &&& causes(lines).len() == at.len()
            &&& forall|k: int|
                0 <= k < at.len() ==> causes(lines)[k] == message_of(lines[#[trigger] at[k]])
        }),
    decreases lines.len(),
{
    if lines.len() == 0 || is_trailer(trimmed(lines[0])) {
        (0, Seq::empty())
    } else {
        let rest = lines.drop_first();
        let (e, later) = law_every_cause_is_kept(rest);
        let end = e + 1;
        let first = if message_of(lines[0]).len() == 0 {
            Seq::<int>::empty()
        } else {
            seq![0int]
        };
        let moved = Seq::new(later.len(), |k: int| later[k] + 1);
        let at = first + moved;
        assert forall|i: int| 0 <= i < rest.len() implies #[trigger] rest[i] == lines[i + 1] by {}
        assert forall|i: int| 0 <= i < end implies !begins(
            trimmed(#[trigger] lines[i]),
            "Location:"@,
        ) && !begins(trimmed(lines[i]), "Backtrace omitted"@) by {
            if i > 0 {
                assert(rest[i - 1] == lines[i]);
            }
        }
        assert(end < lines.len() ==> rest[e] == lines[end]);
        assert forall|k: int| 0 <= k < at.len() implies 0 <= #[trigger] at[k] < end by {
            if k >= first.len() {
                assert(at[k] == later[k - first.len()] + 1);
            }
        }
        assert forall|j: int, k: int| 0 <= j < k < at.len() implies #[trigger] at[j]
            < #[trigger] at[k] by {
            assert(at[k] == later[k - first.len()] + 1);
            if j >= first.len() {
                assert(at[j] == later[j - first.len()] + 1);
                assert(later[j - first.len()] < later[k - first.len()]);
            }
        }
        assert forall|i: int| 0 <= i < end implies (#[trigger] at.contains(i) <==> message_of(
            lines[i],
        ).len() > 0) by {
            if i == 0 {
                if first.len() > 0 {
                    assert(at[0] == 0);
                }
                if at.contains(0) {
                    let k = choose|k: int| 0 <= k < at.len() && at[k] == 0;
                    if k >= first.len() {
                        assert(at[k] == later[k - first.len()] + 1);
                    }
                }
            } else {
                assert(rest[i - 1] == lines[i]);
                assert(later.contains(i - 1) <==> message_of(rest[i - 1]).len() > 0);
                if later.contains(i - 1) {
                    let k = choose|k: int| 0 <= k < later.len() && later[k] == i - 1;
                    assert(at[first.len() + k] == i);
                }
                if at.contains(i) {
                    let k = choose|k: int| 0 <= k < at.len() && at[k] == i;
                    assert(k >= first.len());
                    assert(later[k - first.len()] == i - 1);
                }
            }
        }
        assert forall|k: int| 0 <= k < at.len() implies causes(lines)[k] == message_of(
            lines[#[trigger] at[k]],
        ) by {
            if k >= first.len() {
                assert(at[k] == later[k - first.len()] + 1);
                assert(causes(lines)[k] == causes(rest)[k - first.len()]);
                assert(rest[later[k - first.len()]] == lines[at[k]]);
            }
        }
        (end, at)
    }
}

/// The message of a line is the line without the white space around it, without the word that
/// heads the report, and without the number of a cause; a line with neither is its message.
pub proof fn law_the_message_of_a_line(line: Seq<char>, number: Seq<char>, rest: Seq<char>)
    requires
        number.len() > 0,
        forall|i: int| 0 <= i < number.len() ==> '0' <= #[trigger] number[i] && number[i] <= '9',
    ensures
        ({
            let body = trimmed(line);
            let headless = if begins(body, "Error:"@) {
                trimmed(body.skip(6))
            } else {
                body
            };
            &&& headless == number + seq![':', ' '] + rest ==> message_of(line) == trimmed(rest)
            &&& headless.len() == 0 || !('0' <= headless[0] && headless[0] <= '9') ==> message_of(
                line,
            ) == headless
        }),
{
    reveal_strlit("Error:");
    let body = trimmed(line);
    let run = law_trimming_takes_the_white_space_around(line);
    let again = law_trimming_takes_the_white_space_around(body);
    if again.0 > 0 {
        assert(is_white(body[0]));
        assert(body[0] == line[run.0]);
    }
    if again.1 < body.len() {
        assert(is_white(body[body.len() - 1]));
        assert(body[body.len() - 1] == line[run.1 - 1]);
    }
    assert(trimmed(body) =~= body);
    let headless = if begins(body, "Error:"@) {
        trimmed(body.skip(6))
    } else {
        body
    };
    assert(without_header(body) == headless);
    if headless == number + seq![':', ' '] + rest {
        lemma_digits_of(number, seq![':', ' '] + rest);
        assert(number + seq![':', ' '] + rest =~= number + (seq![':', ' '] + rest));
        assert(headless.skip((number.len() + 2) as int) =~= rest);
    }
}

proof fn lemma_digits_of(number: Seq<char>, rest: Seq<char>)
    requires
        forall|i: int| 0 <= i < number.len() ==> '0' <= #[trigger] number[i] && number[i] <= '9',
        rest.len() > 0,
        !('0' <= rest[0] && rest[0] <= '9'),
    ensures
        digits(number + rest) == number.len(),
    decreases number.len(),
{
    if number.len() == 0 {
        assert(number + rest =~= rest);
    } else {
        let less = number.drop_first();
        assert((number + rest).drop_first() =~= less + rest);
        assert((number + rest)[0] == number[0]);
        assert forall|i: int| 0 <= i < less.len() implies '0' <= #[trigger] less[i] && less[i]
            <= '9' by {
            assert(less[i] == number[i + 1]);
        }
        lemma_digits_of(less, rest);
    }
}

/// A report is condensed to its causes in one line, whole where that is short, and otherwise as
/// much as is shown with a mark that there is more.
pub proof fn law_a_report_is_condensed_to_its_causes(report: Seq<char>)
    ensures
        LONGEST == 400,
        ({
            let whole = joined(causes(lines_in(stripped(report))), " "@);
            &&& whole.len() <= LONGEST ==> condensed(report) == whole
            &&& whole.len() > LONGEST ==> condensed(report) == whole.take(LONGEST as int)
                + seq!['\u{2026}']
        }),
{
    reveal_strlit("\u{2026}");
    assert("\u{2026}"@ =~= seq!['\u{2026}']);
}

} // verus!
