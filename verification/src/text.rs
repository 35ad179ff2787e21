//! Text: comparing, cutting, trimming and joining it.
//!
//! A text is its sequence of characters. Where an algorithm has to look at characters out of
//! order it works on a vector of them; where it only copies text through it works on strings.

use crate::utf::{
    byte_len, chars_before, is_boundary, lemma_boundary_agrees, lemma_chars_before,
    lemma_take_bytes,
};
use vstd::prelude::*;
use vstd::utf8::*;

verus! {

/// `String::push` appends one character to the end of the string.
pub assume_specification[ String::push ](s: &mut String, c: char)
    ensures
        final(s)@ == old(s)@.push(c),
;

/// Whether two texts are the same.
pub fn same_text(a: &str, b: &str) -> (same: bool)
    ensures
        same == (a@ == b@),
{
    let x = a.as_bytes();
    let y = b.as_bytes();
    proof {
        encode_utf8_decode_utf8(a@);
        encode_utf8_decode_utf8(b@);
    }
    if x.len() != y.len() {
        return false;
    }
    let n: usize = x.len();
    let mut i: usize = 0;
    while i < n
        invariant
            n == x@.len(),
            n == y@.len(),
            i <= n,
            x@ == encode_utf8(a@),
            y@ == encode_utf8(b@),
            forall|j: int| 0 <= j < i ==> x@[j] == y@[j],
        decreases n - i,
    {
        if x[i] != y[i] {
            return false;
        }
        i = i + 1;
    }
    proof {
        assert(x@ =~= y@);
    }
    true
}

/// The characters of a text, in order.
pub fn chars_of(s: &str) -> (chars: Vec<char>)
    ensures
        chars@ == s@,
{
    let mut out: Vec<char> = Vec::new();
    for c in it: s.chars()
        invariant
            it.seq() == s@,
            out@ == s@.take(it.index() as int),
    {
        out.push(c);
        proof {
            assert(s@.take(it.index() + 1) =~= s@.take(it.index() as int).push(c));
        }
    }
    proof {
        assert(s@.take(s@.len() as int) =~= s@);
    }
    out
}

/// The text that a run of characters is.
pub fn text_of(chars: &Vec<char>, from: usize, to: usize) -> (text: String)
    requires
        from <= to <= chars@.len(),
    ensures
        text@ == chars@.subrange(from as int, to as int),
{
    let mut out: String = String::new();
    let mut i: usize = from;
    proof {
        assert(chars@.subrange(from as int, from as int) =~= Seq::<char>::empty());
    }
    while i < to
        invariant
            from <= i <= to <= chars@.len(),
            out@ == chars@.subrange(from as int, i as int),
        decreases to - i,
    {
        out.push(chars[i]);
        proof {
            assert(chars@.subrange(from as int, i + 1) =~= chars@.subrange(
                from as int,
                i as int,
            ).push(chars@[i as int]));
        }
        i = i + 1;
    }
    out
}

/// The part of a text between two of its boundaries.
pub open spec fn cut_of(text: Seq<char>, from: int, to: int) -> Seq<char> {
    text.subrange(chars_before(text, from), chars_before(text, to))
}

/// The part of a text between two byte offsets that are boundaries of it.
pub fn cut(text: &str, from: usize, to: usize) -> (part: &str)
    requires
        is_boundary(text@, from as int),
        is_boundary(text@, to as int),
        from <= to,
    ensures
        part@ == cut_of(text@, from as int, to as int),
        chars_before(text@, from as int) <= chars_before(text@, to as int),
{
    let ghost j = chars_before(text@, from as int);
    let ghost k = chars_before(text@, to as int);
    proof {
        if k < j {
            crate::utf::lemma_byte_len_strict(text@, k, j);
        }
        lemma_boundary_agrees(text@, to as int);
        lemma_take_bytes(text@, k);
        encode_utf8_decode_utf8(text@.take(k));
    }
    let (head, _rest) = text.split_at(to);
    proof {
        encode_utf8_decode_utf8(head@);
        assert(encode_utf8(text@).subrange(0, to as int) =~= encode_utf8(text@).take(to as int));
        assert(head@ == text@.take(k));
        assert(text@.take(k).take(j) =~= text@.take(j));
        lemma_chars_before(head@, j);
        lemma_boundary_agrees(head@, from as int);
        lemma_take_bytes(head@, j);
        encode_utf8_decode_utf8(head@.skip(j));
    }
    let (_before, part) = head.split_at(from);
    proof {
        encode_utf8_decode_utf8(part@);
        assert(encode_utf8(head@).subrange(from as int, encode_utf8(head@).len() as int)
            =~= encode_utf8(head@).skip(from as int));
        assert(head@.skip(j) =~= text@.subrange(j, k));
    }
    part
}

/// Whether a character is white space, as Unicode defines the property.
pub open spec fn is_white(c: char) -> bool {
    let u = c as u32;
    ||| 0x09 <= u <= 0x0D
    ||| u == 0x20
    ||| u == 0x85
    ||| u == 0xA0
    ||| u == 0x1680
    ||| 0x2000 <= u <= 0x200A
    ||| u == 0x2028
    ||| u == 0x2029
    ||| u == 0x202F
    ||| u == 0x205F
    ||| u == 0x3000
}

/// Whether a character is white space, as Unicode defines the property.
pub fn white(c: char) -> (yes: bool)
    ensures
        yes == is_white(c),
{
    let u: u32 = c as u32;
    (0x09 <= u && u <= 0x0D) || u == 0x20 || u == 0x85 || u == 0xA0 || u == 0x1680 || (0x2000 <= u
        && u <= 0x200A) || u == 0x2028 || u == 0x2029 || u == 0x202F || u == 0x205F || u == 0x3000
}

/// A text without the white space it begins with.
pub open spec fn trim_start(s: Seq<char>) -> Seq<char>
    decreases s.len(),
{
    if s.len() > 0 && is_white(s[0]) {
        trim_start(s.drop_first())
    } else {
        s
    }
}

/// A text without the white space it ends with.
pub open spec fn trim_end(s: Seq<char>) -> Seq<char>
    decreases s.len(),
{
    if s.len() > 0 && is_white(s.last()) {
        trim_end(s.drop_last())
    } else {
        s
    }
}

/// A text without the white space around it.
pub open spec fn trimmed(s: Seq<char>) -> Seq<char> {
    trim_end(trim_start(s))
}

/// Where the trimmed form of a run of characters begins and ends.
pub fn trim_run(chars: &Vec<char>, from: usize, to: usize) -> (run: (usize, usize))
    requires
        from <= to <= chars@.len(),
    ensures
        from <= run.0 <= run.1 <= to,
        chars@.subrange(run.0 as int, run.1 as int) == trimmed(
            chars@.subrange(from as int, to as int),
        ),
{
    let ghost whole = chars@.subrange(from as int, to as int);
    let mut a: usize = from;
    let mut b: usize = to;
    while a < b && white(chars[a])
        invariant
            from <= a <= b == to,
            to <= chars@.len(),
            whole == chars@.subrange(from as int, to as int),
            trim_start(chars@.subrange(a as int, b as int)) == trim_start(whole),
        decreases b - a,
    {
        proof {
            assert(chars@.subrange(a as int, b as int).drop_first() =~= chars@.subrange(
                a + 1,
                b as int,
            ));
        }
        a = a + 1;
    }
    let ghost inner = chars@.subrange(a as int, b as int);
    proof {
        assert(trim_start(inner) == inner);
    }
    while a < b && white(chars[b - 1])
        invariant
            from <= a <= b <= to,
            to <= chars@.len(),
            trim_end(chars@.subrange(a as int, b as int)) == trim_end(inner),
        decreases b - a,
    {
        proof {
            assert(chars@.subrange(a as int, b as int).drop_last() =~= chars@.subrange(
                a as int,
                b - 1,
            ));
        }
        b = b - 1;
    }
    (a, b)
}

/// A text without the white space around it.
pub fn trim(s: &str) -> (text: String)
    ensures
        text@ == trimmed(s@),
{
    let chars: Vec<char> = chars_of(s);
    let (a, b): (usize, usize) = trim_run(&chars, 0, chars.len());
    proof {
        assert(chars@.subrange(0, chars@.len() as int) =~= s@);
    }
    text_of(&chars, a, b)
}

/// The texts of several strings.
pub open spec fn texts(strings: Seq<String>) -> Seq<Seq<char>> {
    Seq::new(strings.len(), |i: int| strings[i]@)
}

/// Several texts with a separator between each two.
pub open spec fn joined(parts: Seq<Seq<char>>, sep: Seq<char>) -> Seq<char>
    decreases parts.len(),
{
    if parts.len() == 0 {
        Seq::empty()
    } else if parts.len() == 1 {
        parts[0]
    } else {
        joined(parts.drop_last(), sep) + sep + parts.last()
    }
}

/// Several strings as one, with a separator between each two.
pub fn join(parts: &[String], sep: &str) -> (text: String)
    ensures
        text@ == joined(texts(parts@), sep@),
{
    let mut out: String = String::new();
    let n: usize = parts.len();
    let mut i: usize = 0;
    while i < n
        invariant
            n == parts@.len(),
            i <= n,
            out@ == joined(texts(parts@).take(i as int), sep@),
        decreases n - i,
    {
        let ghost before = texts(parts@).take(i as int);
        let ghost after = texts(parts@).take(i + 1);
        proof {
            assert(after.drop_last() =~= before);
            assert(after.last() == parts@[i as int]@);
        }
        if i > 0 {
            out.append(sep);
        }
        out.append(parts[i].as_str());
        proof {
            if i == 0 {
                assert(out@ =~= after[0]);
            }
        }
        i = i + 1;
    }
    proof {
        assert(texts(parts@).take(n as int) =~= texts(parts@));
    }
    out
}

/// Whether two lists of names are the same.
pub fn same_names(a: &[String], b: &[String]) -> (same: bool)
    ensures
        same == (texts(a@) == texts(b@)),
{
    if a.len() != b.len() {
        proof {
            assert(texts(a@).len() != texts(b@).len());
        }
        return false;
    }
    let same: bool = begins_with(a, b);
    proof {
        assert(texts(a@).take(b@.len() as int) =~= texts(a@));
    }
    same
}

/// Whether the first names of a list are those of another.
pub open spec fn starts_with(names: Seq<Seq<char>>, prefix: Seq<Seq<char>>) -> bool {
    prefix.len() <= names.len() && names.take(prefix.len() as int) == prefix
}

/// Whether the first names of a list are those of another.
pub fn begins_with(names: &[String], prefix: &[String]) -> (yes: bool)
    ensures
        yes == starts_with(texts(names@), texts(prefix@)),
{
    let n: usize = prefix.len();
    if n > names.len() {
        return false;
    }
    let mut i: usize = 0;
    while i < n
        invariant
            n == prefix@.len(),
            n <= names@.len(),
            i <= n,
            forall|j: int| 0 <= j < i ==> #[trigger] names@[j]@ == prefix@[j]@,
        decreases n - i,
    {
        if !same_text(names[i].as_str(), prefix[i].as_str()) {
            proof {
                assert(texts(names@).take(n as int)[i as int] == names@[i as int]@);
                assert(texts(prefix@)[i as int] == prefix@[i as int]@);
            }
            return false;
        }
        i = i + 1;
    }
    proof {
        assert(texts(names@).take(n as int) =~= texts(prefix@));
    }
    true
}

/// A digit as a character.
pub open spec fn digit(d: nat) -> char {
    (48 + d) as char
}

/// A number in decimal notation.
pub open spec fn decimal_of(n: nat) -> Seq<char>
    decreases n,
{
    if n < 10 {
        seq![digit(n)]
    } else {
        decimal_of(n / 10).push(digit(n % 10))
    }
}

/// A number in decimal notation.
pub fn decimal(n: usize) -> (text: String)
    ensures
        text@ == decimal_of(n as nat),
    decreases n,
{
    let last: char = (48 + (n % 10) as u8) as char;
    if n < 10 {
        let mut out: String = String::new();
        out.push(last);
        proof {
            assert(out@ =~= seq![digit(n as nat)]);
        }
        out
    } else {
        let mut out: String = decimal(n / 10);
        out.push(last);
        out
    }
}

/// Whether a text lists before another, or is the same: the order of their UTF-8 bytes.
pub open spec fn lists_first(a: Seq<u8>, b: Seq<u8>) -> bool
    decreases a.len(),
{
    if a.len() == 0 {
        true
    } else if b.len() == 0 {
        false
    } else if a[0] != b[0] {
        a[0] < b[0]
    } else {
        lists_first(a.drop_first(), b.drop_first())
    }
}

/// Whether a text lists before another, or is the same.
pub fn lists_before(a: &str, b: &str) -> (yes: bool)
    ensures
        yes == lists_first(encode_utf8(a@), encode_utf8(b@)),
{
    let x = a.as_bytes();
    let y = b.as_bytes();
    let mut i: usize = 0;
    proof {
        assert(x@.skip(0) =~= x@);
        assert(y@.skip(0) =~= y@);
    }
    loop
        invariant
            i <= x@.len(),
            i <= y@.len(),
            x@ == encode_utf8(a@),
            y@ == encode_utf8(b@),
            lists_first(x@.skip(i as int), y@.skip(i as int)) == lists_first(x@, y@),
        decreases x@.len() - i,
    {
        if i >= x.len() {
            return true;
        }
        if i >= y.len() {
            return false;
        }
        if x[i] != y[i] {
            return x[i] < y[i];
        }
        proof {
            assert(x@.skip(i as int).drop_first() =~= x@.skip(i + 1));
            assert(y@.skip(i as int).drop_first() =~= y@.skip(i + 1));
        }
        i = i + 1;
    }
}

/// The order of texts is total, and only a text itself shares its place.
pub proof fn lemma_lists_first(a: Seq<u8>, b: Seq<u8>, c: Seq<u8>)
    ensures
        lists_first(a, b) || lists_first(b, a),
        lists_first(a, b) && lists_first(b, a) ==> a == b,
        lists_first(a, b) && lists_first(b, c) ==> lists_first(a, c),
    decreases a.len(),
{
    if a.len() > 0 && b.len() > 0 && a[0] == b[0] {
        let c_rest = if c.len() > 0 {
            c.drop_first()
        } else {
            c
        };
        lemma_lists_first(a.drop_first(), b.drop_first(), c_rest);
        if a.drop_first() == b.drop_first() {
            assert(a =~= seq![a[0]] + a.drop_first());
            assert(b =~= seq![b[0]] + b.drop_first());
        }
    } else if a.len() == 0 && b.len() == 0 {
        assert(a =~= b);
    }
}

/// Texts are what the strings say, one for one.
pub proof fn law_texts_are_what_the_strings_say(strings: Seq<String>)
    ensures
        texts(strings).len() == strings.len(),
        forall|i: int| 0 <= i < strings.len() ==> #[trigger] texts(strings)[i] == strings[i]@,
{
}

/// Nothing joined is nothing, one part alone is itself, and wherever a list is split, the two
/// halves joined have one separator between them.
pub proof fn law_joining_puts_a_separator_between(
    a: Seq<Seq<char>>,
    b: Seq<Seq<char>>,
    sep: Seq<char>,
)
    ensures
        a.len() == 0 ==> joined(a, sep) == Seq::<char>::empty(),
        a.len() == 1 ==> joined(a, sep) == a[0],
        a.len() > 0 && b.len() > 0 ==> joined(a + b, sep) == joined(a, sep) + sep + joined(b, sep),
    decreases b.len(),
{
    if a.len() > 0 && b.len() > 0 {
        assert((a + b).drop_last() =~= a + b.drop_last());
        assert((a + b).last() == b.last());
        if b.len() == 1 {
            assert(a + b.drop_last() =~= a);
        } else {
            law_joining_puts_a_separator_between(a, b.drop_last(), sep);
            assert(joined(a + b, sep) =~= joined(a, sep) + sep + joined(b, sep));
        }
    }
}

proof fn lemma_trim_start(s: Seq<char>) -> (a: int)
    ensures
        0 <= a <= s.len(),
        trim_start(s) == s.subrange(a, s.len() as int),
        forall|i: int| 0 <= i < a ==> is_white(#[trigger] s[i]),
        a < s.len() ==> !is_white(s[a]),
    decreases s.len(),
{
    if s.len() > 0 && is_white(s[0]) {
        let rest = s.drop_first();
        let a = lemma_trim_start(rest) + 1;
        assert(s.subrange(a, s.len() as int) =~= rest.subrange(a - 1, rest.len() as int));
        assert forall|i: int| 0 <= i < a implies is_white(#[trigger] s[i]) by {
            if i > 0 {
                assert(s[i] == rest[i - 1]);
            }
        }
        a
    } else {
        assert(s.subrange(0, s.len() as int) =~= s);
        0
    }
}

proof fn lemma_trim_end(s: Seq<char>) -> (b: int)
    ensures
        0 <= b <= s.len(),
        trim_end(s) == s.subrange(0, b),
        forall|i: int| b <= i < s.len() ==> is_white(#[trigger] s[i]),
        b > 0 ==> !is_white(s[b - 1]),
    decreases s.len(),
{
    if s.len() > 0 && is_white(s.last()) {
        let rest = s.drop_last();
        let b = lemma_trim_end(rest);
        assert(s.subrange(0, b) =~= rest.subrange(0, b));
        assert forall|i: int| b <= i < s.len() implies is_white(#[trigger] s[i]) by {
            if i < rest.len() {
                assert(s[i] == rest[i]);
            }
        }
        b
    } else {
        assert(s.subrange(0, s.len() as int) =~= s);
        s.len() as int
    }
}

/// Trimming takes the white space at both ends and nothing else: what is left is a run of the
/// text with only white space around it, and neither begins nor ends in any.
pub proof fn law_trimming_takes_the_white_space_around(s: Seq<char>) -> (run: (int, int))
    ensures
        0 <= run.0 <= run.1 <= s.len(),
        trimmed(s) == s.subrange(run.0, run.1),
        forall|i: int| 0 <= i < run.0 ==> is_white(#[trigger] s[i]),
        forall|i: int| run.1 <= i < s.len() ==> is_white(#[trigger] s[i]),
        run.0 < run.1 ==> !is_white(s[run.0]) && !is_white(s[run.1 - 1]),
{
    let a = lemma_trim_start(s);
    let rest = trim_start(s);
    let b = lemma_trim_end(rest);
    assert(rest.subrange(0, b) =~= s.subrange(a, a + b));
    assert forall|i: int| a + b <= i < s.len() implies is_white(#[trigger] s[i]) by {
        assert(s[i] == rest[i - a]);
    }
    if b > 0 {
        assert(s[a + b - 1] == rest[b - 1]);
    }
    (a, a + b)
}

/// What lies between two boundaries of a text is the run of characters between them.
pub proof fn law_a_cut_is_a_run_of_the_text(text: Seq<char>, j: int, k: int)
    requires
        0 <= j <= k <= text.len(),
    ensures
        cut_of(text, byte_len(text.take(j)) as int, byte_len(text.take(k)) as int)
            == text.subrange(j, k),
{
    lemma_chars_before(text, j);
    lemma_chars_before(text, k);
}

/// Bytes are listed as a dictionary lists them: a prefix before what it begins, and otherwise by
/// the first byte that differs.
pub proof fn law_bytes_are_listed_as_in_a_dictionary(a: Seq<u8>, b: Seq<u8>, k: int)
    requires
        0 <= k <= a.len(),
        k <= b.len(),
        forall|i: int| 0 <= i < k ==> a[i] == #[trigger] b[i],
    ensures
        k == a.len() ==> lists_first(a, b),
        k == b.len() && k < a.len() ==> !lists_first(a, b),
        k < a.len() && k < b.len() && a[k] != b[k] ==> (lists_first(a, b) <==> a[k] < b[k]),
    decreases k,
{
    if k > 0 {
        assert(a[0] == b[0]);
        let (x, y) = (a.drop_first(), b.drop_first());
        assert forall|i: int| 0 <= i < k - 1 implies x[i] == #[trigger] y[i] by {
            assert(a[i + 1] == b[i + 1]);
        }
        law_bytes_are_listed_as_in_a_dictionary(x, y, k - 1);
    }
}

/// The number that digits spell.
pub open spec fn number_of(digits: Seq<char>) -> int
    decreases digits.len(),
{
    if digits.len() == 0 {
        0
    } else {
        10 * number_of(digits.drop_last()) + (digits.last() as int - '0' as int)
    }
}

/// A number is spelled in digits that spell it, without zeros in front.
pub proof fn law_a_number_is_spelled_in_decimal(n: nat)
    ensures
        number_of(decimal_of(n)) == n,
        forall|i: int|
            0 <= i < decimal_of(n).len() ==> '0' <= #[trigger] decimal_of(n)[i]
                && decimal_of(n)[i] <= '9',
        decimal_of(n).len() > 0,
        n > 0 ==> decimal_of(n)[0] != '0',
    decreases n,
{
    if n < 10 {
        reveal_with_fuel(number_of, 2);
        assert(seq![digit(n)].drop_last() =~= Seq::<char>::empty());
    } else {
        law_a_number_is_spelled_in_decimal(n / 10);
        assert(decimal_of(n).drop_last() =~= decimal_of(n / 10));
    }
}

/// White space is what `char::is_whitespace` of the standard library calls so: in ASCII, the
/// blank and the five controls that move the cursor; beyond it, the blanks and the separators of
/// lines and paragraphs.
pub proof fn law_what_white_space_is(c: char)
    ensures
        c <= '\u{7f}' ==> (is_white(c) <==> c == ' ' || c == '\t' || c == '\n' || c == '\u{b}' || c
            == '\u{c}' || c == '\r'),
        c > '\u{7f}' ==> (is_white(c) <==> c == '\u{85}' || c == '\u{a0}' || c == '\u{1680}' || (
        '\u{2000}' <= c && c <= '\u{200a}') || c == '\u{2028}' || c == '\u{2029}' || c
            == '\u{202f}' || c == '\u{205f}' || c == '\u{3000}'),
{
}

} // verus!
