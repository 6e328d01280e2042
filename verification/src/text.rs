use vstd::prelude::*;
use vstd::string::StringExecFns;

verus! {

/// `String::push`: appends one character.
#[verifier::external_body]
fn push_char(s: &mut String, c: char)
    ensures
        final(s)@ == old(s)@.push(c),
{
    s.push(c);
}

/// The characters of `s`, collected into a vector.
pub fn chars_of(s: &str) -> (out: Vec<char>)
    ensures
        out@ == s@,
{
    let mut out: Vec<char> = Vec::new();
    for c in it: s.chars()
        invariant
            out@ == it.seq().take(it.index() as int),
            it.seq() == s@,
    {
        out.push(c);
    }
    out
}

/// A string holding the characters of `chars`.
pub fn string_of(chars: &Vec<char>) -> (s: String)
    ensures
        s@ == chars@,
{
    let mut s = String::new();
    let n = chars.len();
    for i in 0..n
        invariant
            n == chars@.len(),
            s@ == chars@.take(i as int),
    {
        push_char(&mut s, chars[i]);
        proof {
            assert(chars@.take(i + 1) =~= chars@.take(i as int).push(chars@[i as int]));
        }
    }
    proof {
        assert(chars@.take(n as int) =~= chars@);
    }
    s
}

/// `c` with ASCII capitals turned into small letters; every other character
/// stays.
pub open spec fn lower_char(c: char) -> char {
    if 'A' <= c && c <= 'Z' {
        ((c as u32) + 32) as char
    } else {
        c
    }
}

/// `c` with ASCII small letters turned into capitals; every other character
/// stays.
pub open spec fn upper_char(c: char) -> char {
    if 'a' <= c && c <= 'z' {
        ((c as u32) - 32) as char
    } else {
        c
    }
}

/// `s` with ASCII letters made small.
pub open spec fn ascii_lower(s: Seq<char>) -> Seq<char> {
    s.map_values(|c: char| lower_char(c))
}

/// `s` with ASCII letters made capital.
pub open spec fn ascii_upper(s: Seq<char>) -> Seq<char> {
    s.map_values(|c: char| upper_char(c))
}

/// One character with an ASCII capital made small.
pub fn to_lower_char(c: char) -> (r: char)
    ensures
        r == lower_char(c),
{
    if 'A' <= c && c <= 'Z' {
        ((c as u8) + 32) as char
    } else {
        c
    }
}

/// One character with an ASCII small letter made capital.
pub fn to_upper_char(c: char) -> (r: char)
    ensures
        r == upper_char(c),
{
    if 'a' <= c && c <= 'z' {
        ((c as u8) - 32) as char
    } else {
        c
    }
}

/// `s` with ASCII letters made small, as characters.
pub fn lowercase_chars(s: &str) -> (out: Vec<char>)
    ensures
        out@ == ascii_lower(s@),
{
    let chars = chars_of(s);
    let mut out: Vec<char> = Vec::new();
    let n = chars.len();
    for i in 0..n
        invariant
            n == chars@.len(),
            chars@ == s@,
            out@ == ascii_lower(s@.take(i as int)),
    {
        out.push(to_lower_char(chars[i]));
        proof {
            assert(ascii_lower(s@.take(i + 1)) =~= ascii_lower(s@.take(i as int)).push(
                lower_char(s@[i as int]),
            ));
        }
    }
    proof {
        assert(s@.take(n as int) =~= s@);
    }
    out
}

/// `needle` occurs as a run of consecutive characters of `hay` (the empty
/// needle occurs everywhere).
pub open spec fn occurs_in(hay: Seq<char>, needle: Seq<char>) -> bool {
    exists|i: int| 0 <= i <= hay.len() - needle.len() && #[trigger] hay.subrange(i, i + needle.len()) == needle
}

/// Whether `needle` occurs as a run of consecutive characters of `hay`.
pub fn contains_chars(hay: &Vec<char>, needle: &Vec<char>) -> (found: bool)
    ensures
        found == occurs_in(hay@, needle@),
{
    let h = hay.len();
    let m = needle.len();
    if m > h {
        return false;
    }
    let last = h - m;
    let mut i: usize = 0;
    while i <= last
        invariant
            h == hay@.len(),
            m == needle@.len(),
            last == h - m,
            i <= last + 1,
            forall|p: int| 0 <= p < i ==> #[trigger] hay@.subrange(p, p + m) != needle@,
        decreases last + 1 - i,
    {
        let mut j: usize = 0;
        let mut same = true;
        while j < m
            invariant
                h == hay@.len(),
                m == needle@.len(),
                i + m <= h,
                j <= m,
                same == (forall|q: int| 0 <= q < j ==> hay@[i + q] == needle@[q]),
            decreases m - j,
        {
            if hay[i + j] != needle[j] {
                same = false;
            }
            j = j + 1;
        }
        if same {
            proof {
                assert(hay@.subrange(i as int, i + m) =~= needle@);
            }
            return true;
        }
        proof {
            let q = choose|q: int| 0 <= q < m && hay@[i + q] != needle@[q];
            assert(hay@.subrange(i as int, i + m)[q] == hay@[i + q]);
        }
        i = i + 1;
    }
    false
}

/// Whether `c` has the Unicode White_Space property.
pub open spec fn white_space(c: char) -> bool {
    ||| ('\u{9}' <= c && c <= '\u{d}')
    ||| c == ' '
    ||| c == '\u{85}'
    ||| c == '\u{a0}'
    ||| c == '\u{1680}'
    ||| ('\u{2000}' <= c && c <= '\u{200a}')
    ||| c == '\u{2028}'
    ||| c == '\u{2029}'
    ||| c == '\u{202f}'
    ||| c == '\u{205f}'
    ||| c == '\u{3000}'
}

/// Whether `c` has the Unicode White_Space property.
pub fn is_white_space(c: char) -> (b: bool)
    ensures
        b == white_space(c),
{
    ('\u{9}' <= c && c <= '\u{d}') || c == ' ' || c == '\u{85}' || c == '\u{a0}' || c == '\u{1680}'
        || ('\u{2000}' <= c && c <= '\u{200a}') || c == '\u{2028}' || c == '\u{2029}' || c
        == '\u{202f}' || c == '\u{205f}' || c == '\u{3000}'
}

/// `(start, end)` cut `s` into leading white space, the kept part and
/// trailing white space: everything outside is white space, and the kept
/// part, when not empty, begins and ends with other characters.
pub open spec fn trim_cut(s: Seq<char>, start: int, end: int) -> bool {
    &&& 0 <= start <= end <= s.len()
    &&& forall|k: int| 0 <= k < start ==> white_space(#[trigger] s[k])
    &&& forall|k: int| end <= k < s.len() ==> white_space(#[trigger] s[k])
    &&& start < end ==> !white_space(s[start]) && !white_space(s[end - 1])
}

/// `s` without leading and trailing white space.
pub open spec fn trimmed(s: Seq<char>) -> Seq<char> {
    let cut = choose|cut: (int, int)| trim_cut(s, cut.0, cut.1);
    s.subrange(cut.0, cut.1)
}

/// All cuts of `s` keep the same characters.
pub proof fn lemma_trim_cut_unique(s: Seq<char>, a1: int, b1: int, a2: int, b2: int)
    requires
        trim_cut(s, a1, b1),
        trim_cut(s, a2, b2),
    ensures
        s.subrange(a1, b1) == s.subrange(a2, b2),
{
    if a1 < b1 {
        assert(!white_space(s[a1]));
        if a2 >= b2 {
            assert(a1 < a2 || a1 >= b2);
        }
        assert(a2 < b2);
        assert(!white_space(s[a2]));
        assert(a1 == a2);
        assert(!white_space(s[b1 - 1]) && !white_space(s[b2 - 1]));
        assert(b1 == b2);
    } else if a2 < b2 {
        assert(!white_space(s[a2]));
        assert(a2 < a1 || a2 >= b1);
    } else {
        assert(s.subrange(a1, b1) =~= s.subrange(a2, b2));
    }
}

/// A cut shows what `trimmed` keeps.
pub proof fn lemma_trim_cut_trimmed(s: Seq<char>, a: int, b: int)
    requires
        trim_cut(s, a, b),
    ensures
        s.subrange(a, b) == trimmed(s),
{
    let cut = choose|cut: (int, int)| trim_cut(s, cut.0, cut.1);
    assert(trim_cut(s, (a, b).0, (a, b).1));
    lemma_trim_cut_unique(s, a, b, cut.0, cut.1);
}

/// The bounds of `s` without leading and trailing white space.
pub fn trim_bounds(s: &Vec<char>) -> (cut: (usize, usize))
    ensures
        trim_cut(s@, cut.0 as int, cut.1 as int),
{
    let n = s.len();
    let mut start: usize = 0;
    while start < n && is_white_space(s[start])
        invariant
            n == s@.len(),
            start <= n,
            forall|k: int| 0 <= k < start ==> white_space(#[trigger] s@[k]),
        decreases n - start,
    {
        start = start + 1;
    }
    let mut end: usize = n;
    while end > start && is_white_space(s[end - 1])
        invariant
            n == s@.len(),
            start <= end <= n,
            forall|k: int| end <= k < n ==> white_space(#[trigger] s@[k]),
            start < n ==> !white_space(s@[start as int]),
        decreases end,
    {
        end = end - 1;
    }
    (start, end)
}

/// The character of the decimal digit `d`.
pub open spec fn digit_char(d: nat) -> char {
    ((d + 48) as u32) as char
}

/// The decimal digits of `n`, most significant first, without leading zeros.
pub open spec fn decimal(n: nat) -> Seq<char>
    decreases n,
{
    if n < 10 {
        seq![digit_char(n)]
    } else {
        decimal(n / 10).push(digit_char(n % 10))
    }
}

/// The decimal form of a signed number: a minus sign before the digits of
/// its size when it is negative.
pub open spec fn signed_decimal(n: int) -> Seq<char> {
    if n < 0 {
        seq!['-'] + decimal((-n) as nat)
    } else {
        decimal(n as nat)
    }
}

/// Appends the decimal digits of `n` to `out`.
pub fn push_decimal(out: &mut Vec<char>, n: u64)
    ensures
        final(out)@ == old(out)@ + decimal(n as nat),
    decreases n,
{
    if n >= 10 {
        push_decimal(out, n / 10);
    }
    let d = (n % 10) as u8;
    out.push((d + 48) as char);
    proof {
        assert(old(out)@ + decimal(n as nat) =~= if n < 10 {
            old(out)@ + seq![digit_char(n as nat)]
        } else {
            (old(out)@ + decimal((n / 10) as nat)).push(digit_char((n % 10) as nat))
        });
    }
}

/// `text` with a comma before every character that has a positive multiple
/// of three characters after it, up to the first `k` characters.
pub open spec fn commas_upto(text: Seq<char>, k: int) -> Seq<char>
    decreases k,
{
    if k <= 0 {
        Seq::empty()
    } else {
        let i = k - 1;
        let before = commas_upto(text, i);
        let with_sep = if i > 0 && (text.len() - i) % 3 == 0 {
            before.push(',')
        } else {
            before
        };
        with_sep.push(text[i])
    }
}

/// `text` with thousands separators: a comma before every character that has
/// a positive multiple of three characters after it.
pub open spec fn with_commas(text: Seq<char>) -> Seq<char> {
    commas_upto(text, text.len() as int)
}

/// A count written with thousands separators, such as `1,234,567`.
pub fn format_count(value: usize) -> (text: String)
    ensures
        text@ == with_commas(decimal(value as nat)),
{
    let mut digits: Vec<char> = Vec::new();
    push_decimal(&mut digits, value as u64);
    proof {
        assert(Seq::<char>::empty() + decimal(value as nat) =~= decimal(value as nat));
    }
    let n = digits.len();
    let mut output = String::new();
    for index in 0..n
        invariant
            n == digits@.len(),
            digits@ == decimal(value as nat),
            output@ == commas_upto(digits@, index as int),
    {
        if index > 0 && (n - index) % 3 == 0 {
            push_char(&mut output, ',');
        }
        push_char(&mut output, digits[index]);
    }
    output
}

/// The label of a file type: `FILE` for files without an extension, else the
/// first six characters of the extension in ASCII capitals.
pub open spec fn spec_short_extension(extension: Seq<char>) -> Seq<char> {
    if extension == "no extension"@ {
        "FILE"@
    } else {
        ascii_upper(extension.take(if extension.len() < 6 { extension.len() as int } else { 6 }))
    }
}

/// Whether two character sequences are equal.
pub fn chars_equal(a: &Vec<char>, b: &Vec<char>) -> (same: bool)
    ensures
        same == (a@ == b@),
{
    if a.len() != b.len() {
        return false;
    }
    let n = a.len();
    for i in 0..n
        invariant
            n == a@.len(),
            n == b@.len(),
            forall|k: int| 0 <= k < i ==> a@[k] == b@[k],
    {
        if a[i] != b[i] {
            return false;
        }
    }
    proof {
        assert(a@ =~= b@);
    }
    true
}

/// The label of a file type: `FILE` for files without an extension, else the
/// first six characters of the extension in ASCII capitals.
pub fn short_extension(extension: &str) -> (label: String)
    ensures
        label@ == spec_short_extension(extension@),
{
    let chars = chars_of(extension);
    let none = chars_of("no extension");
    if chars_equal(&chars, &none) {
        return "FILE".to_owned();
    }
    let keep: usize = if chars.len() < 6 {
        chars.len()
    } else {
        6
    };
    let mut out = String::new();
    for i in 0..keep
        invariant
            keep <= chars@.len(),
            chars@ == extension@,
            out@ == ascii_upper(extension@.take(i as int)),
    {
        push_char(&mut out, to_upper_char(chars[i]));
        proof {
            assert(ascii_upper(extension@.take(i + 1)) =~= ascii_upper(extension@.take(i as int)).push(
                upper_char(extension@[i as int]),
            ));
        }
    }
    out
}

/// `text` cut to at most `max_chars` characters: unchanged when it fits, else
/// its first `max_chars - 1` characters (none when `max_chars` is 0) followed
/// by an ellipsis.
pub open spec fn spec_ellipsize(text: Seq<char>, max_chars: nat) -> Seq<char> {
    if text.len() <= max_chars {
        text
    } else {
        let keep: int = if max_chars == 0 { 0 } else { max_chars - 1 };
        text.take(keep).push('…')
    }
}

/// `text` cut to at most `max_chars` characters, with an ellipsis when cut.
pub fn ellipsize(text: &str, max_chars: usize) -> (out: String)
    ensures
        out@ == spec_ellipsize(text@, max_chars as nat),
{
    let chars = chars_of(text);
    if chars.len() <= max_chars {
        return text.to_owned();
    }
    let keep: usize = if max_chars == 0 {
        0
    } else {
        max_chars - 1
    };
    let mut out = String::new();
    for i in 0..keep
        invariant
            keep < chars@.len(),
            chars@ == text@,
            out@ == text@.take(i as int),
    {
        push_char(&mut out, chars[i]);
        proof {
            assert(text@.take(i + 1) =~= text@.take(i as int).push(text@[i as int]));
        }
    }
    push_char(&mut out, '…');
    out
}

/// `a - b`, held within the range of `i64`.
pub open spec fn saturating_diff(a: i64, b: i64) -> int {
    let d = a - b;
    if d > i64::MAX {
        i64::MAX as int
    } else if d < i64::MIN {
        i64::MIN as int
    } else {
        d
    }
}

/// `a - b` held within the range of `i64`.
pub fn saturating_sub_i64(a: i64, b: i64) -> (d: i64)
    ensures
        d == saturating_diff(a, b),
{
    let wide: i128 = a as i128 - b as i128;
    if wide > i64::MAX as i128 {
        i64::MAX
    } else if wide < i64::MIN as i128 {
        i64::MIN
    } else {
        wide as i64
    }
}

/// `n / d` rounded toward zero, as Rust's integer division does.
pub open spec fn div_toward_zero(n: int, d: int) -> int {
    if n >= 0 {
        n / d
    } else {
        -((-n) / d)
    }
}

/// How long ago a file was modified, from its modification time and the
/// current time (both in seconds since the Unix epoch): `unknown` when the
/// time is not positive, else minutes (at least one) under an hour, hours
/// under a day, days up to 30 days, 30-day months up to 365 days, and
/// 365-day years beyond (or when the time lies in the future).
pub open spec fn spec_relative_age(modified: i64, now: i64) -> Seq<char> {
    if modified <= 0 {
        "unknown"@
    } else {
        let seconds = saturating_diff(now, modified);
        if 0 <= seconds <= 3_599 {
            decimal((if seconds / 60 > 1 { seconds / 60 } else { 1 }) as nat) + "m ago"@
        } else if 3_600 <= seconds <= 86_399 {
            decimal((seconds / 3_600) as nat) + "h ago"@
        } else if 86_400 <= seconds <= 2_592_000 {
            decimal((seconds / 86_400) as nat) + "d ago"@
        } else if 2_592_001 <= seconds <= 31_536_000 {
            decimal((seconds / 2_592_000) as nat) + "mo ago"@
        } else {
            signed_decimal(div_toward_zero(seconds, 31_536_000)) + "y ago"@
        }
    }
}

/// How long ago a file was modified, such as `5m ago` or `2y ago`.
pub fn relative_age(modified: i64, now: i64) -> (text: String)
    ensures
        text@ == spec_relative_age(modified, now),
{
    if modified <= 0 {
        return "unknown".to_owned();
    }
    let seconds = saturating_sub_i64(now, modified);
    let mut digits: Vec<char> = Vec::new();
    let suffix: &str;
    if 0 <= seconds && seconds <= 3_599 {
        let minutes = seconds / 60;
        push_decimal(&mut digits, if minutes > 1 { minutes as u64 } else { 1 });
        suffix = "m ago";
    } else if 3_600 <= seconds && seconds <= 86_399 {
        push_decimal(&mut digits, (seconds / 3_600) as u64);
        suffix = "h ago";
    } else if 86_400 <= seconds && seconds <= 2_592_000 {
        push_decimal(&mut digits, (seconds / 86_400) as u64);
        suffix = "d ago";
    } else if 2_592_001 <= seconds && seconds <= 31_536_000 {
        push_decimal(&mut digits, (seconds / 2_592_000) as u64);
        suffix = "mo ago";
    } else if seconds >= 0 {
        push_decimal(&mut digits, (seconds / 31_536_000) as u64);
        suffix = "y ago";
    } else {
        let wide: i128 = -(seconds as i128);
        let years = (wide / 31_536_000) as u64;
        if years > 0 {
            digits.push('-');
        }
        push_decimal(&mut digits, years);
        suffix = "y ago";
    }
    let mut text = string_of(&digits);
    text.append(suffix);
    text
}

/// `a` comes before `b` in the order of strings: compared character by
/// character (by code point, which is also the order of their UTF-8 bytes),
/// a proper prefix first.
pub open spec fn chars_lt(a: Seq<char>, b: Seq<char>) -> bool
    decreases a.len(),
{
    if a.len() == 0 {
        b.len() > 0
    } else if b.len() == 0 {
        false
    } else if a[0] != b[0] {
        a[0] < b[0]
    } else {
        chars_lt(a.drop_first(), b.drop_first())
    }
}

/// The order of strings is transitive.
pub proof fn lemma_chars_lt_transitive(a: Seq<char>, b: Seq<char>, c: Seq<char>)
    requires
        chars_lt(a, b),
        chars_lt(b, c),
    ensures
        chars_lt(a, c),
    decreases a.len(),
{
    if a.len() > 0 && b.len() > 0 && c.len() > 0 {
        if a[0] == b[0] && b[0] == c[0] {
            lemma_chars_lt_transitive(a.drop_first(), b.drop_first(), c.drop_first());
        }
    }
}

/// Of two different strings, exactly one comes before the other.
pub proof fn lemma_chars_lt_total(a: Seq<char>, b: Seq<char>)
    ensures
        a != b ==> chars_lt(a, b) || chars_lt(b, a),
        !(chars_lt(a, b) && chars_lt(b, a)),
    decreases a.len(),
{
    if a.len() > 0 && b.len() > 0 && a[0] == b[0] {
        lemma_chars_lt_total(a.drop_first(), b.drop_first());
        if a != b {
            if a.drop_first() == b.drop_first() {
                assert forall|k: int| 0 <= k < a.len() implies a[k] == b[k] by {
                    if k > 0 {
                        assert(a[k] == a.drop_first()[k - 1]);
                        assert(b[k] == b.drop_first()[k - 1]);
                    }
                }
                assert(a =~= b);
            }
        }
    } else if a.len() == 0 && b.len() == 0 {
        assert(a =~= b);
    }
}

/// Whether `a` comes before `b` in the order of strings.
pub fn chars_less(a: &Vec<char>, b: &Vec<char>) -> (less: bool)
    ensures
        less == chars_lt(a@, b@),
{
    let n = if a.len() < b.len() {
        a.len()
    } else {
        b.len()
    };
    let mut i: usize = 0;
    proof {
        assert(a@.skip(0) =~= a@);
        assert(b@.skip(0) =~= b@);
    }
    while i < n
        invariant
            n <= a@.len(),
            n <= b@.len(),
            n == a@.len() || n == b@.len(),
            i <= n,
            chars_lt(a@, b@) == chars_lt(a@.skip(i as int), b@.skip(i as int)),
        decreases n - i,
    {
        if a[i] != b[i] {
            proof {
                assert(a@.skip(i as int)[0] == a@[i as int]);
                assert(b@.skip(i as int)[0] == b@[i as int]);
            }
            return a[i] < b[i];
        }
        proof {
            assert(a@.skip(i as int).drop_first() =~= a@.skip(i + 1));
            assert(b@.skip(i as int).drop_first() =~= b@.skip(i + 1));
        }
        i = i + 1;
    }
    a.len() < b.len()
}


/// Text of at most `max_chars` characters comes back unchanged. Longer text is
/// cut: what comes back is its first characters followed by `…`, and has
/// exactly `max_chars` characters (one, the ellipsis, when `max_chars` is 0).
pub proof fn lemma_ellipsize_fits(text: Seq<char>, max_chars: nat)
    ensures
        text.len() <= max_chars ==> spec_ellipsize(text, max_chars) == text,
        text.len() > max_chars ==> spec_ellipsize(text, max_chars).len() == (if max_chars == 0 { 1 } else { max_chars }),
        text.len() > max_chars ==> spec_ellipsize(text, max_chars).last() == '…',
        text.len() > max_chars ==> forall|i: int|
            0 <= i < spec_ellipsize(text, max_chars).len() - 1 ==> #[trigger] spec_ellipsize(text, max_chars)[i] == text[i],
{
}


/// A type's label is `FILE` for files without an extension; otherwise it
/// keeps the first six characters of the type (all of a shorter one), in
/// order, with the ASCII small letters `a`..`z` made capital and every other
/// character unchanged.
pub proof fn lemma_short_extension_label(extension: Seq<char>)
    ensures
        extension == "no extension"@ ==> spec_short_extension(extension) == "FILE"@,
        extension != "no extension"@ ==> spec_short_extension(extension).len() == (if extension.len() < 6 {
            extension.len()
        } else {
            6
        }),
        extension != "no extension"@ ==> forall|i: int|
            0 <= i < spec_short_extension(extension).len() ==> {
                let c = extension[i];
                let t = #[trigger] spec_short_extension(extension)[i];
                &&& ('a' <= c && c <= 'z') ==> t as u32 + 32 == c as u32
                &&& !('a' <= c && c <= 'z') ==> t == c
            },
{
}


/// The number that decimal digits stand for, most significant first.
pub open spec fn digits_value(digits: Seq<char>) -> int
    decreases digits.len(),
{
    if digits.len() == 0 {
        0
    } else {
        digits_value(digits.drop_last()) * 10 + (digits.last() as int - 48)
    }
}

/// `text` with its commas taken out.
pub open spec fn without_commas(text: Seq<char>) -> Seq<char>
    decreases text.len(),
{
    if text.len() == 0 {
        Seq::empty()
    } else if text.last() == ',' {
        without_commas(text.drop_last())
    } else {
        without_commas(text.drop_last()).push(text.last())
    }
}

/// The decimal digits of `n` are digits, and they stand for `n`.
pub proof fn lemma_decimal_value(n: nat)
    ensures
        digits_value(decimal(n)) == n,
        forall|i: int| 0 <= i < decimal(n).len() ==> '0' <= #[trigger] decimal(n)[i] && decimal(n)[i] <= '9',
        decimal(n).len() >= 1,
    decreases n,
{
    if n >= 10 {
        lemma_decimal_value(n / 10);
        let d = decimal(n);
        assert(d.drop_last() =~= decimal(n / 10));
        assert(d.last() == digit_char(n % 10));
        assert(digit_char(n % 10) as int == n % 10 + 48);
        assert(n == (n / 10) * 10 + n % 10);
        assert(digits_value(d) == digits_value(decimal(n / 10)) * 10 + (d.last() as int - 48));
        assert forall|i: int| 0 <= i < d.len() implies '0' <= #[trigger] d[i] && d[i] <= '9' by {
            if i < d.len() - 1 {
                assert(d[i] == decimal(n / 10)[i]);
            }
        }
    } else {
        assert(decimal(n).drop_last() =~= Seq::<char>::empty());
        assert(digit_char(n) as int == n + 48);
        assert(digits_value(Seq::<char>::empty()) == 0);
        assert(digits_value(decimal(n)) == digits_value(decimal(n).drop_last()) * 10 + (decimal(n).last() as int - 48));
    }
}

proof fn lemma_without_commas_upto(text: Seq<char>, k: int)
    requires
        0 <= k <= text.len(),
        forall|i: int| 0 <= i < text.len() ==> #[trigger] text[i] != ',',
    ensures
        without_commas(commas_upto(text, k)) == text.take(k),
    decreases k,
{
    if k > 0 {
        let i = k - 1;
        lemma_without_commas_upto(text, i);
        let before = commas_upto(text, i);
        let with_sep = if i > 0 && (text.len() - i) % 3 == 0 {
            before.push(',')
        } else {
            before
        };
        assert(commas_upto(text, k) == with_sep.push(text[i]));
        assert(with_sep.push(text[i]).drop_last() =~= with_sep);
        assert(with_sep.push(text[i]).last() == text[i]);
        assert(without_commas(with_sep.push(text[i])) == without_commas(with_sep).push(text[i]));
        if i > 0 && (text.len() - i) % 3 == 0 {
            assert(before.push(',').drop_last() =~= before);
            assert(before.push(',').last() == ',');
            assert(without_commas(with_sep) == without_commas(before));
        }
        assert(text.take(i).push(text[i]) =~= text.take(k));
    }
}

/// Taking the commas out of a formatted count gives back its decimal digits,
/// which stand for the count: the thousands separators add nothing else.
pub proof fn lemma_format_count_round_trip(value: nat)
    ensures
        without_commas(with_commas(decimal(value))) == decimal(value),
        digits_value(without_commas(with_commas(decimal(value)))) == value,
{
    lemma_decimal_value(value);
    let d = decimal(value);
    assert forall|i: int| 0 <= i < d.len() implies #[trigger] d[i] != ',' by {
        assert('0' <= d[i]);
    }
    lemma_without_commas_upto(d, d.len() as int);
    assert(d.take(d.len() as int) =~= d);
}

} // verus!
