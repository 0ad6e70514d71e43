//! Text helpers shared by the lexer and the formatter: character classes,
//! building `String`s from characters, and the UTF-8 byte length of text.
use vstd::prelude::*;
use vstd::utf8::*;

verus! {

/// The Unicode `Alphabetic` property, as `char::is_alphabetic` reports it.
pub uninterp spec fn is_alphabetic(c: char) -> bool;

/// `Alphabetic` or `Numeric`, as `char::is_alphanumeric` reports it.
pub uninterp spec fn is_alphanumeric(c: char) -> bool;

pub open spec fn is_ascii_letter(c: char) -> bool {
    ('a' <= c <= 'z') || ('A' <= c <= 'Z')
}

/// `char::is_alphabetic`: whether `c` has the Unicode `Alphabetic` property.
/// Among ASCII characters that is exactly the letters; beyond ASCII the
/// property is a table of the Unicode standard, which the contract names
/// and does not restate.
#[verifier::external_body]
pub(crate) fn char_is_alphabetic(c: char) -> (b: bool)
    ensures
        b == is_alphabetic(c),
        (c as u32) < 128 ==> (b <==> is_ascii_letter(c)),
{
    c.is_alphabetic()
}

/// `char::is_alphanumeric`: whether `c` is alphabetic or numeric in the
/// Unicode sense. Among ASCII characters that is exactly the letters and
/// digits; beyond ASCII the contract names the result and does not restate
/// the tables.
#[verifier::external_body]
pub(crate) fn char_is_alphanumeric(c: char) -> (b: bool)
    ensures
        b == is_alphanumeric(c),
        (c as u32) < 128 ==> (b <==> (is_ascii_letter(c) || ('0' <= c <= '9'))),
{
    c.is_alphanumeric()
}

/// The Unicode `White_Space` property (`PropList.txt`), which is what
/// `char::is_whitespace` reports: tab, line feed, vertical tab, form feed,
/// carriage return, space, U+0085, U+00A0, U+1680, U+2000 to U+200A,
/// U+2028, U+2029, U+202F, U+205F and U+3000.
pub open spec fn is_whitespace(c: char) -> bool {
    let u = c as u32;
    ||| 0x09 <= u <= 0x0d
    ||| u == 0x20
    ||| u == 0x85
    ||| u == 0xa0
    ||| u == 0x1680
    ||| 0x2000 <= u <= 0x200a
    ||| u == 0x2028
    ||| u == 0x2029
    ||| u == 0x202f
    ||| u == 0x205f
    ||| u == 0x3000
}

/// Whether `c` is whitespace, as `char::is_whitespace` decides it.
pub(crate) fn char_is_whitespace(c: char) -> (b: bool)
    ensures
        b == is_whitespace(c),
{
    let u = c as u32;
    (0x09 <= u && u <= 0x0d) || u == 0x20 || u == 0x85 || u == 0xa0 || u == 0x1680 || (0x2000 <= u && u <= 0x200a)
        || u == 0x2028 || u == 0x2029 || u == 0x202f || u == 0x205f || u == 0x3000
}

/// `String::push`: appends `c` to the end of `s`.
#[verifier::external_body]
pub(crate) fn push_char(s: &mut String, c: char)
    ensures
        final(s)@ == old(s)@.push(c),
{
    s.push(c);
}

/// `chars[lo..hi]` as a `String`.
pub fn string_of(chars: &[char], lo: usize, hi: usize) -> (text: String)
    requires
        lo <= hi <= chars@.len(),
    ensures
        text@ == chars@.subrange(lo as int, hi as int),
{
    let mut text = String::new();
    let mut i = lo;
    while i < hi
        invariant
            lo <= i <= hi <= chars@.len(),
            text@ == chars@.subrange(lo as int, i as int),
        decreases hi - i,
    {
        push_char(&mut text, chars[i]);
        assert(chars@.subrange(lo as int, i + 1) =~= chars@.subrange(lo as int, i as int).push(chars@[i as int]));
        i += 1;
    }
    text
}

/// `a` and `b` joined into one `String`.
pub fn concat2(a: &str, b: &str) -> (text: String)
    ensures
        text@ == a@ + b@,
{
    let mut text = String::from_str(a);
    text.append(b);
    text
}

/// `a`, `b` and `c` joined into one `String`.
pub fn concat3(a: &str, b: &str, c: &str) -> (text: String)
    ensures
        text@ == a@ + b@ + c@,
{
    let mut text = String::from_str(a);
    text.append(b);
    text.append(c);
    text
}

/// The characters of a string, in order.
pub fn chars_of(source: &str) -> (chars: Vec<char>)
    ensures
        chars@ == source@,
{
    broadcast use vstd::string::axiom_spec_iter;

    let mut chars: Vec<char> = Vec::new();
    for c in iter: source.chars()
        invariant
            chars@ == iter.seq().take(iter.index() as int),
    {
        chars.push(c);
    }
    assert(chars@ =~= source@);
    chars
}

/// A `String` holding exactly `chars`.
pub fn string_from_chars(chars: &[char]) -> (text: String)
    ensures
        text@ == chars@,
{
    let text = string_of(chars, 0, chars.len());
    assert(chars@.subrange(0, chars@.len() as int) =~= chars@);
    text
}

/// Whether two strings hold the same characters.
pub fn str_eq(a: &str, b: &str) -> (same: bool)
    ensures
        same == (a@ == b@),
{
    proof {
        encode_utf8_decode_utf8(a@);
        encode_utf8_decode_utf8(b@);
    }
    let x = a.as_bytes();
    let y = b.as_bytes();
    if x.len() != y.len() {
        return false;
    }
    let mut k: usize = 0;
    while k < x.len()
        invariant
            x@ == encode_utf8(a@),
            y@ == encode_utf8(b@),
            x@.len() == y@.len(),
            k <= x@.len(),
            forall|m: int| 0 <= m < k ==> x@[m] == y@[m],
        decreases x@.len() - k,
    {
        if x[k] != y[k] {
            return false;
        }
        k += 1;
    }
    assert(x@ =~= y@);
    true
}

// ---------------------------------------------------------------------------
// UTF-8 byte positions
// ---------------------------------------------------------------------------

/// The byte offset, in the UTF-8 encoding of `s`, of its `k`-th character.
pub open spec fn byte_offset(s: Seq<char>, k: int) -> int {
    encode_utf8(s.take(k)).len() as int
}

pub proof fn lemma_encode_utf8_concat(a: Seq<char>, b: Seq<char>)
    ensures
        encode_utf8(a + b) == encode_utf8(a) + encode_utf8(b),
    decreases a.len(),
{
    if a.len() == 0 {
        assert(a + b =~= b);
        assert(encode_utf8(a) =~= Seq::<u8>::empty());
        assert(encode_utf8(a) + encode_utf8(b) =~= encode_utf8(b));
    } else {
        lemma_encode_utf8_concat(a.drop_first(), b);
        assert((a + b).drop_first() =~= a.drop_first() + b);
        assert(encode_utf8(a + b) =~= encode_scalar(a[0] as u32) + encode_utf8(a.drop_first() + b));
        assert(encode_utf8(a) + encode_utf8(b) =~= encode_scalar(a[0] as u32) + (encode_utf8(
            a.drop_first(),
        ) + encode_utf8(b)));
    }
}

/// Byte offsets grow by each character's encoded width, and never pass the
/// encoded length of the whole text.
pub proof fn lemma_byte_offset_step(s: Seq<char>, k: int)
    requires
        0 <= k < s.len(),
    ensures
        byte_offset(s, k + 1) == byte_offset(s, k) + encode_scalar(s[k] as u32).len(),
        byte_offset(s, k + 1) <= encode_utf8(s).len(),
{
    let a = s.take(k);
    let one = seq![s[k]];
    assert(s.take(k + 1) =~= a + one);
    lemma_encode_utf8_concat(a, one);
    assert(one.drop_first() =~= Seq::<char>::empty());
    assert(encode_utf8(one) =~= encode_scalar(s[k] as u32) + encode_utf8(Seq::<char>::empty()));
    assert(encode_utf8(Seq::<char>::empty()) =~= Seq::<u8>::empty());
    assert(s =~= s.take(k + 1) + s.skip(k + 1));
    lemma_encode_utf8_concat(s.take(k + 1), s.skip(k + 1));
}

/// The number of bytes `c` takes in UTF-8 (`char::len_utf8`).
pub fn utf8_width(c: char) -> (width: usize)
    ensures
        width == encode_scalar(c as u32).len(),
        1 <= width <= 4,
{
    proof {
        char_is_scalar(c);
    }
    let u = c as u32;
    if u <= 0x7f {
        1
    } else if u <= 0x7ff {
        2
    } else if u <= 0xffff {
        3
    } else {
        4
    }
}

/// `offsets[k]` is the byte offset of character `k` of `source`, for every
/// `k` up to and including the number of characters.
pub fn byte_offsets(source: &str, chars: &Vec<char>) -> (offsets: Vec<usize>)
    requires
        chars@ == source@,
    ensures
        offsets@.len() == chars@.len() + 1,
        forall|k: int| 0 <= k <= chars@.len() ==> offsets@[k] == byte_offset(chars@, k),
{
    let total = source.as_bytes().len();
    let mut offsets: Vec<usize> = Vec::new();
    let mut current: usize = 0;
    offsets.push(0);
    assert(chars@.take(0) =~= Seq::<char>::empty());
    assert(encode_utf8(Seq::<char>::empty()) =~= Seq::<u8>::empty());
    let mut k: usize = 0;
    while k < chars.len()
        invariant
            k <= chars@.len(),
            offsets@.len() == k + 1,
            current == byte_offset(chars@, k as int),
            total == encode_utf8(chars@).len(),
            forall|j: int| 0 <= j <= k ==> offsets@[j] == byte_offset(chars@, j),
        decreases chars@.len() - k,
    {
        proof {
            lemma_byte_offset_step(chars@, k as int);
        }
        let width = utf8_width(chars[k]);
        current = current + width;
        offsets.push(current);
        k += 1;
    }
    offsets
}

/// The decimal digits of `n`, most significant first.
pub open spec fn decimal(n: nat) -> Seq<char>
    decreases n,
{
    if n < 10 {
        seq![(n + 48) as char]
    } else {
        decimal(n / 10).push(((n % 10) + 48) as char)
    }
}

/// `n` written in decimal.
pub fn decimal_string(n: u64) -> (text: String)
    ensures
        text@ == decimal(n as nat),
    decreases n,
{
    let digit = ((n % 10) as u8 + 48) as char;
    if n < 10 {
        let mut text = String::new();
        push_char(&mut text, digit);
        text
    } else {
        let mut text = decimal_string(n / 10);
        push_char(&mut text, digit);
        text
    }
}

/// `n` written in decimal.
pub fn decimal_usize(n: usize) -> (text: String)
    ensures
        text@ == decimal(n as nat),
{
    decimal_string(n as u64)
}

/// Whether `needle` occurs in `text`.
pub open spec fn contains_seq(text: Seq<char>, needle: Seq<char>) -> bool {
    exists|i: int| 0 <= i <= text.len() - needle.len() && #[trigger] text.subrange(i, i + needle.len()) == needle
}

/// Whether `needle` occurs in `text` (`str::contains`).
pub fn contains_str(text: &str, needle: &str) -> (found: bool)
    ensures
        found == contains_seq(text@, needle@),
{
    broadcast use vstd::std_specs::vec::axiom_spec_len;

    let t = chars_of(text);
    let n = chars_of(needle);
    if n.len() > t.len() {
        return false;
    }
    let mut i: usize = 0;
    while i <= t.len() - n.len()
        invariant
            t@ == text@,
            n@ == needle@,
            n@.len() <= t@.len(),
            i <= t@.len() - n@.len() + 1,
            forall|j: int| 0 <= j < i ==> #[trigger] t@.subrange(j, j + n@.len()) != n@,
        decreases t@.len() - n@.len() + 1 - i,
    {
        let mut k: usize = 0;
        let mut same = true;
        while same && k < n.len()
            invariant
                t@ == text@,
                n@ == needle@,
                i + n@.len() <= t@.len(),
                t@.len() == t.len(),
                k <= n@.len(),
                forall|m: int| 0 <= m < k ==> t@[i + m] == n@[m],
                !same ==> k < n@.len() && t@[i + k] != n@[k as int],
            decreases n@.len() - k + if same {
                1int
            } else {
                0int
            },
        {
            if t[i + k] == n[k] {
                k += 1;
            } else {
                same = false;
            }
        }
        if same {
            assert(t@.subrange(i as int, i + n@.len()) =~= n@);
            return true;
        }
        assert(t@.subrange(i as int, i + n@.len())[k as int] != n@[k as int]);
        i += 1;
    }
    assert forall|j: int| 0 <= j <= t@.len() - n@.len() implies #[trigger] t@.subrange(j, j + n@.len()) != n@ by {
    }
    false
}

// ---------------------------------------------------------------------------
// lines, trimming, and the pieces of a `key = value` setting
// ---------------------------------------------------------------------------

/// The text split at newlines: one piece per line, the last possibly empty.
pub open spec fn split_lines(s: Seq<char>) -> Seq<Seq<char>>
    decreases s.len(),
{
    if s.len() == 0 {
        seq![Seq::empty()]
    } else {
        let rest = split_lines(s.drop_last());
        if s.last() == '\n' {
            rest.push(Seq::empty())
        } else {
            rest.update(rest.len() - 1, rest.last().push(s.last()))
        }
    }
}

pub proof fn lemma_split_lines_nonempty(s: Seq<char>)
    ensures
        split_lines(s).len() >= 1,
    decreases s.len(),
{
    if s.len() > 0 {
        lemma_split_lines_nonempty(s.drop_last());
    }
}

/// The lines of `text`, split at each newline (`str::split('\n')`).
pub fn lines_of(text: &str) -> (lines: Vec<Vec<char>>)
    ensures
        lines@.len() == split_lines(text@).len(),
        forall|i: int| 0 <= i < lines@.len() ==> #[trigger] lines@[i]@ == split_lines(text@)[i],
{
    let chars = chars_of(text);
    lines_of_chars(chars.as_slice())
}

/// The lines of a character sequence, split at each newline.
pub fn lines_of_chars(chars: &[char]) -> (lines: Vec<Vec<char>>)
    ensures
        lines@.len() == split_lines(chars@).len(),
        forall|i: int| 0 <= i < lines@.len() ==> #[trigger] lines@[i]@ == split_lines(chars@)[i],
{
    let ghost s = chars@;
    let mut lines: Vec<Vec<char>> = Vec::new();
    let mut current: Vec<char> = Vec::new();
    let mut i: usize = 0;
    assert(s.take(0) =~= Seq::<char>::empty());
    while i < chars.len()
        invariant
            chars@ == s,
            i <= s.len(),
            lines@.len() + 1 == split_lines(s.take(i as int)).len(),
            forall|k: int| 0 <= k < lines@.len() ==> #[trigger] lines@[k]@ == split_lines(s.take(i as int))[k],
            current@ == split_lines(s.take(i as int)).last(),
        decreases s.len() - i,
    {
        assert(s.take(i + 1).drop_last() =~= s.take(i as int));
        proof {
            lemma_split_lines_nonempty(s.take(i as int));
        }
        if chars[i] == '\n' {
            let finished = current;
            lines.push(finished);
            current = Vec::new();
        } else {
            current.push(chars[i]);
        }
        i += 1;
    }
    assert(s.take(s.len() as int) =~= s);
    lines.push(current);
    lines
}

/// The index of the first `c` in `s`, or `s.len()` where there is none.
pub open spec fn first_index_of(s: Seq<char>, c: char) -> nat
    decreases s.len(),
{
    if s.len() == 0 {
        0
    } else if s[0] == c {
        0
    } else {
        1 + first_index_of(s.drop_first(), c)
    }
}

pub proof fn lemma_first_index_of(s: Seq<char>, c: char)
    ensures
        first_index_of(s, c) <= s.len(),
        forall|j: int| 0 <= j < first_index_of(s, c) ==> s[j] != c,
        first_index_of(s, c) < s.len() ==> s[first_index_of(s, c) as int] == c,
    decreases s.len(),
{
    if s.len() > 0 && s[0] != c {
        lemma_first_index_of(s.drop_first(), c);
        assert forall|j: int| 0 <= j < first_index_of(s, c) implies s[j] != c by {
            if j > 0 {
                assert(s[j] == s.drop_first()[j - 1]);
            }
        }
    }
}

/// Where the first `c` in `chars[from..]` is, or the end.
pub fn find_char(chars: &[char], from: usize, c: char) -> (k: usize)
    requires
        from <= chars@.len(),
    ensures
        k == from + first_index_of(chars@.subrange(from as int, chars@.len() as int), c),
{
    let ghost s = chars@;
    let mut k = from;
    while k < chars.len() && chars[k] != c
        invariant
            from <= k <= s.len(),
            chars@ == s,
            forall|j: int| from <= j < k ==> s[j] != c,
        decreases s.len() - k,
    {
        k += 1;
    }
    proof {
        lemma_first_index_exact(s.subrange(from as int, s.len() as int), c, (k - from) as int);
    }
    k
}

proof fn lemma_first_index_exact(s: Seq<char>, c: char, k: int)
    requires
        0 <= k <= s.len(),
        forall|j: int| 0 <= j < k ==> s[j] != c,
        k < s.len() ==> s[k] == c,
    ensures
        first_index_of(s, c) == k,
    decreases k,
{
    if k > 0 {
        lemma_first_index_exact(s.drop_first(), c, k - 1);
    }
}

/// Whether `c` is stripped by a trim: whitespace, or `"` when trimming quotes.
pub open spec fn trimmed_char(c: char, quotes: bool) -> bool {
    if quotes {
        c == '"'
    } else {
        is_whitespace(c)
    }
}

/// `s` without its leading trimmed characters.
pub open spec fn trim_start_spec(s: Seq<char>, quotes: bool) -> Seq<char>
    decreases s.len(),
{
    if s.len() > 0 && trimmed_char(s[0], quotes) {
        trim_start_spec(s.drop_first(), quotes)
    } else {
        s
    }
}

/// `s` without its trailing trimmed characters.
pub open spec fn trim_end_spec(s: Seq<char>, quotes: bool) -> Seq<char>
    decreases s.len(),
{
    if s.len() > 0 && trimmed_char(s.last(), quotes) {
        trim_end_spec(s.drop_last(), quotes)
    } else {
        s
    }
}

/// `str::trim` (whitespace) or `str::trim_matches('"')` (quotes).
pub open spec fn trim_spec(s: Seq<char>, quotes: bool) -> Seq<char> {
    trim_end_spec(trim_start_spec(s, quotes), quotes)
}

fn is_trimmed(c: char, quotes: bool) -> (b: bool)
    ensures
        b == trimmed_char(c, quotes),
{
    if quotes {
        c == '"'
    } else {
        char_is_whitespace(c)
    }
}

/// `chars[lo..hi]` trimmed of whitespace (or of quotes).
pub fn trim_chars(chars: &[char], lo: usize, hi: usize, quotes: bool) -> (trimmed: Vec<char>)
    requires
        lo <= hi <= chars@.len(),
    ensures
        trimmed@ == trim_spec(chars@.subrange(lo as int, hi as int), quotes),
{
    let ghost s = chars@.subrange(lo as int, hi as int);
    let mut a = lo;
    while a < hi && is_trimmed(chars[a], quotes)
        invariant
            lo <= a <= hi <= chars@.len(),
            trim_start_spec(s, quotes) == trim_start_spec(chars@.subrange(a as int, hi as int), quotes),
        decreases hi - a,
    {
        assert(chars@.subrange(a as int, hi as int).drop_first() =~= chars@.subrange(a + 1, hi as int));
        a += 1;
    }
    let ghost t = chars@.subrange(a as int, hi as int);
    assert(trim_start_spec(s, quotes) == t);
    let mut b = hi;
    while b > a && is_trimmed(chars[b - 1], quotes)
        invariant
            lo <= a <= b <= hi <= chars@.len(),
            trim_end_spec(t, quotes) == trim_end_spec(chars@.subrange(a as int, b as int), quotes),
        decreases b - a,
    {
        assert(chars@.subrange(a as int, b as int).drop_last() =~= chars@.subrange(a as int, b - 1));
        b -= 1;
    }
    let mut out: Vec<char> = Vec::new();
    let mut k = a;
    while k < b
        invariant
            a <= k <= b <= chars@.len(),
            out@ == chars@.subrange(a as int, k as int),
        decreases b - k,
    {
        out.push(chars[k]);
        assert(chars@.subrange(a as int, k + 1) =~= chars@.subrange(a as int, k as int).push(chars@[k as int]));
        k += 1;
    }
    out
}

/// Whether two character sequences are equal.
pub fn chars_eq(a: &[char], b: &[char]) -> (same: bool)
    ensures
        same == (a@ == b@),
{
    if a.len() != b.len() {
        return false;
    }
    let mut k: usize = 0;
    while k < a.len()
        invariant
            a@.len() == b@.len(),
            k <= a@.len(),
            forall|m: int| 0 <= m < k ==> a@[m] == b@[m],
        decreases a@.len() - k,
    {
        if a[k] != b[k] {
            return false;
        }
        k += 1;
    }
    assert(a@ =~= b@);
    true
}

/// Whether `chars` spells `text`.
pub fn chars_are(chars: &[char], text: &str) -> (same: bool)
    ensures
        same == (chars@ == text@),
{
    let t = chars_of(text);
    chars_eq(chars, t.as_slice())
}

/// The value of a run of decimal digits.
pub open spec fn digits_value(s: Seq<char>) -> nat
    decreases s.len(),
{
    if s.len() == 0 {
        0
    } else {
        (digits_value(s.drop_last()) * 10 + (s.last() as int - '0' as int)) as nat
    }
}

pub open spec fn all_digits(s: Seq<char>) -> bool {
    forall|i: int| 0 <= i < s.len() ==> '0' <= #[trigger] s[i] <= '9'
}

/// `usize::from_str`: an optional `+`, then one or more decimal digits whose
/// value fits in a `usize`.
pub open spec fn parse_usize_spec(s: Seq<char>) -> Option<usize> {
    let digits = if s.len() > 0 && s[0] == '+' {
        s.drop_first()
    } else {
        s
    };
    if digits.len() > 0 && all_digits(digits) && digits_value(digits) <= usize::MAX {
        Some(digits_value(digits) as usize)
    } else {
        None
    }
}

/// Parses a `usize` as `usize::from_str` does.
pub fn parse_usize(s: &[char]) -> (value: Option<usize>)
    ensures
        value == parse_usize_spec(s@),
{
    let start: usize = if s.len() > 0 && s[0] == '+' {
        1
    } else {
        0
    };
    let ghost digits = s@.subrange(start as int, s@.len() as int);
    assert(digits =~= (if s@.len() > 0 && s@[0] == '+' {
        s@.drop_first()
    } else {
        s@
    }));
    if start == s.len() {
        return None;
    }
    let mut value: usize = 0;
    let mut k = start;
    while k < s.len()
        invariant
            start <= k <= s@.len(),
            digits == s@.subrange(start as int, s@.len() as int),
            digits == (if s@.len() > 0 && s@[0] == '+' {
                s@.drop_first()
            } else {
                s@
            }),
            all_digits(s@.subrange(start as int, k as int)),
            value == digits_value(s@.subrange(start as int, k as int)),
        decreases s@.len() - k,
    {
        let c = s[k];
        assert(s@.subrange(start as int, k + 1).drop_last() =~= s@.subrange(start as int, k as int));
        if !('0' <= c && c <= '9') {
            proof {
                assert(digits[k - start] == c);
                assert(!all_digits(digits));
                lemma_parse_usize_spec(s@, digits);
            }
            return None;
        }
        let d = (c as u32 - '0' as u32) as usize;
        if value > (usize::MAX - d) / 10 {
            proof {
                lemma_digits_prefix_bound(digits, (k - start) as int);
                assert(digits_value(s@.subrange(start as int, k + 1)) == value * 10 + d);
                assert(value * 10 + d > usize::MAX) by (nonlinear_arith)
                    requires
                        value > (usize::MAX - d) / 10,
                        d <= 9,
                ;
                assert(digits.take(k - start + 1) =~= s@.subrange(start as int, k + 1));
                lemma_parse_usize_spec(s@, digits);
            }
            return None;
        }
        assert(value * 10 + d <= usize::MAX) by (nonlinear_arith)
            requires
                value <= (usize::MAX - d) / 10,
                d <= 9,
        ;
        value = value * 10 + d;
        k += 1;
    }
    assert(s@.subrange(start as int, s@.len() as int) == digits);
    Some(value)
}

proof fn lemma_parse_usize_spec(s: Seq<char>, digits: Seq<char>)
    requires
        digits == (if s.len() > 0 && s[0] == '+' {
            s.drop_first()
        } else {
            s
        }),
    ensures
        parse_usize_spec(s) == (if digits.len() > 0 && all_digits(digits) && digits_value(digits) <= usize::MAX {
            Some(digits_value(digits) as usize)
        } else {
            None
        }),
{
}

/// A prefix of a digit run is worth no more than the whole run.
proof fn lemma_digits_prefix_bound(s: Seq<char>, k: int)
    requires
        0 <= k < s.len(),
    ensures
        all_digits(s) ==> digits_value(s.take(k + 1)) <= digits_value(s),
    decreases s.len(),
{
    if k + 1 < s.len() {
        lemma_digits_prefix_bound(s.drop_last(), k);
        assert(s.drop_last().take(k + 1) =~= s.take(k + 1));
        if all_digits(s) {
            assert(all_digits(s.drop_last()));
        }
    } else {
        assert(s.take(k + 1) =~= s);
    }
}

/// The number of decimal digits of `n`.
pub fn decimal_width(n: u64) -> (width: usize)
    ensures
        width == decimal(n as nat).len(),
    decreases n,
{
    if n < 10 {
        1
    } else {
        let w = decimal_width(n / 10);
        proof {
            lemma_pow10_20();
            lemma_decimal_len_pow((n / 10) as nat, 20);
        }
        w + 1
    }
}

pub open spec fn pow10(d: nat) -> nat
    decreases d,
{
    if d == 0 {
        1
    } else {
        10 * pow10((d - 1) as nat)
    }
}

proof fn lemma_pow10_20()
    ensures
        pow10(20) == 100_000_000_000_000_000_000,
{
    reveal_with_fuel(pow10, 21);
}

/// A number below `10^d` has at most `d` digits.
proof fn lemma_decimal_len_pow(n: nat, d: nat)
    requires
        n < pow10(d),
        d >= 1,
    ensures
        decimal(n).len() <= d,
    decreases d,
{
    if n >= 10 {
        assert(n / 10 < pow10((d - 1) as nat)) by (nonlinear_arith)
            requires
                n < pow10(d),
                pow10(d) == 10 * pow10((d - 1) as nat),
        ;
        if d == 1 {
            assert(pow10(1) == 10 * pow10(0));
        } else {
            lemma_decimal_len_pow(n / 10, (d - 1) as nat);
        }
    }
}

/// A line's setting: its text before any `#`, trimmed.
pub open spec fn setting_text(line: Seq<char>) -> Seq<char> {
    trim_spec(line.take(first_index_of(line, '#') as int), false)
}

/// The part of a line before its first `=`, and the part after it.
pub open spec fn split_at_equals(line: Seq<char>) -> Option<(Seq<char>, Seq<char>)> {
    let k = first_index_of(line, '=');
    if k < line.len() {
        Some((line.take(k as int), line.skip(k as int + 1)))
    } else {
        None
    }
}

/// A setting's key and value: the trimmed text before the first `=`, and
/// the trimmed text after it with surrounding quotes removed.
pub open spec fn key_value(line: Seq<char>) -> Option<(Seq<char>, Seq<char>)> {
    match split_at_equals(line) {
        Some((left, right)) => Some((trim_spec(left, false), trim_spec(trim_spec(right, false), true))),
        None => None,
    }
}

/// The setting text of a line: before any `#`, trimmed.
pub fn setting_of(line: &[char]) -> (text: Vec<char>)
    ensures
        text@ == setting_text(line@),
{
    let hash = find_char(line, 0, '#');
    proof {
        assert(line@.subrange(0, line@.len() as int) =~= line@);
        lemma_first_index_of(line@, '#');
        assert(line@.subrange(0, hash as int) =~= line@.take(first_index_of(line@, '#') as int));
    }
    trim_chars(line, 0, hash, false)
}

/// Splits a setting into its key and value.
pub fn split_setting(text: &[char]) -> (parts: Option<(Vec<char>, Vec<char>)>)
    ensures
        match key_value(text@) {
            Some((key, value)) => parts matches Some((k, v)) && k@ == key && v@ == value,
            None => parts is None,
        },
{
    let eq = find_char(text, 0, '=');
    proof {
        assert(text@.subrange(0, text@.len() as int) =~= text@);
        lemma_first_index_of(text@, '=');
    }
    if eq == text.len() {
        return None;
    }
    let key = trim_chars(text, 0, eq, false);
    let raw = trim_chars(text, eq + 1, text.len(), false);
    let value = trim_chars(raw.as_slice(), 0, raw.len(), true);
    proof {
        assert(text@.subrange(0, eq as int) =~= text@.take(eq as int));
        assert(text@.subrange(eq + 1, text@.len() as int) =~= text@.skip(eq + 1));
        assert(raw@.subrange(0, raw@.len() as int) =~= raw@);
    }
    Some((key, value))
}

pub proof fn lemma_trim_start_len(s: Seq<char>, quotes: bool)
    ensures
        trim_start_spec(s, quotes).len() <= s.len(),
    decreases s.len(),
{
    if s.len() > 0 && trimmed_char(s[0], quotes) {
        lemma_trim_start_len(s.drop_first(), quotes);
    }
}

pub proof fn lemma_trim_end_len(s: Seq<char>, quotes: bool)
    ensures
        trim_end_spec(s, quotes).len() <= s.len(),
    decreases s.len(),
{
    if s.len() > 0 && trimmed_char(s.last(), quotes) {
        lemma_trim_end_len(s.drop_last(), quotes);
    }
}

pub proof fn lemma_trim_len(s: Seq<char>)
    ensures
        trim_spec(s, false).len() <= s.len(),
{
    lemma_trim_start_len(s, false);
    lemma_trim_end_len(trim_start_spec(s, false), false);
}

/// Trimming the start drops exactly the leading trimmed characters: what
/// is left is a suffix of `s` that does not start with one.
pub proof fn lemma_trim_start_drops_leading(s: Seq<char>, quotes: bool)
    ensures
        ({
            let t = trim_start_spec(s, quotes);
            &&& t.len() <= s.len()
            &&& t == s.skip(s.len() - t.len())
            &&& forall|k: int| 0 <= k < s.len() - t.len() ==> trimmed_char(#[trigger] s[k], quotes)
            &&& t.len() > 0 ==> !trimmed_char(t[0], quotes)
        }),
    decreases s.len(),
{
    if s.len() > 0 && trimmed_char(s[0], quotes) {
        let rest = s.drop_first();
        lemma_trim_start_drops_leading(rest, quotes);
        let t = trim_start_spec(rest, quotes);
        assert(t =~= s.skip(s.len() - t.len()));
        assert forall|k: int| 0 <= k < s.len() - t.len() implies trimmed_char(#[trigger] s[k], quotes) by {
            if k > 0 {
                assert(s[k] == rest[k - 1]);
            }
        }
    } else {
        assert(s.skip(0) =~= s);
    }
}

/// Trimming the end drops exactly the trailing trimmed characters: what is
/// left is a prefix of `s` that does not end with one.
pub proof fn lemma_trim_end_drops_trailing(s: Seq<char>, quotes: bool)
    ensures
        ({
            let t = trim_end_spec(s, quotes);
            &&& t.len() <= s.len()
            &&& t == s.take(t.len() as int)
            &&& forall|k: int| t.len() <= k < s.len() ==> trimmed_char(#[trigger] s[k], quotes)
            &&& t.len() > 0 ==> !trimmed_char(t.last(), quotes)
        }),
    decreases s.len(),
{
    if s.len() > 0 && trimmed_char(s.last(), quotes) {
        let rest = s.drop_last();
        lemma_trim_end_drops_trailing(rest, quotes);
        let t = trim_end_spec(rest, quotes);
        assert(t =~= s.take(t.len() as int));
        assert forall|k: int| t.len() <= k < s.len() implies trimmed_char(#[trigger] s[k], quotes) by {
            if k < s.len() - 1 {
                assert(s[k] == rest[k]);
            }
        }
    } else {
        assert(s.take(s.len() as int) =~= s);
    }
}

/// Trimming keeps the middle of `s` and drops only trimmed characters
/// (whitespace: among others space, tab, line feed and carriage return;
/// or quotes) at both ends; the result neither starts nor ends with one.
pub proof fn lemma_trim_keeps_the_middle(s: Seq<char>, quotes: bool)
    ensures
        ({
            let t = trim_spec(s, quotes);
            let a = s.len() - trim_start_spec(s, quotes).len();
            &&& 0 <= a && a + t.len() <= s.len()
            &&& t == s.subrange(a, a + t.len())
            &&& forall|k: int| 0 <= k < a ==> trimmed_char(#[trigger] s[k], quotes)
            &&& forall|k: int| a + t.len() <= k < s.len() ==> trimmed_char(#[trigger] s[k], quotes)
            &&& t.len() > 0 ==> !trimmed_char(t[0], quotes) && !trimmed_char(t.last(), quotes)
        }),
        !quotes ==> trimmed_char(' ', quotes) && trimmed_char('\t', quotes) && trimmed_char('\n', quotes)
            && trimmed_char('\r', quotes),
        quotes ==> trimmed_char('"', quotes) && !trimmed_char(' ', quotes),
{
    lemma_trim_start_drops_leading(s, quotes);
    let u = trim_start_spec(s, quotes);
    lemma_trim_end_drops_trailing(u, quotes);
    let t = trim_spec(s, quotes);
    let a = s.len() - u.len();
    assert(t =~= s.subrange(a, a + t.len()));
    assert forall|k: int| a + t.len() <= k < s.len() implies trimmed_char(#[trigger] s[k], quotes) by {
        assert(s[k] == u[k - a]);
    }
    if t.len() > 0 {
        assert(t[0] == u[0]);
    }
}

} // verus!
