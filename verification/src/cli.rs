//! Values the command line names: byte offsets and line ranges.
use std::ops::Range;

use vstd::prelude::*;

use crate::text::{
    byte_offset, byte_offsets, chars_of, decimal, decimal_usize, find_char, first_index_of, lemma_first_index_of,
    parse_usize, parse_usize_spec, string_of,
};

verus! {

// ================
// byte offsets
// ================

/// The value of an ASCII digit in base `radix` (up to 36), if it is one.
pub open spec fn digit_value(c: char, radix: u32) -> Option<nat> {
    let v: int = if '0' <= c <= '9' {
        c as int - '0' as int
    } else if 'a' <= c <= 'z' {
        c as int - 'a' as int + 10
    } else if 'A' <= c <= 'Z' {
        c as int - 'A' as int + 10
    } else {
        radix as int
    };
    if v < radix {
        Some(v as nat)
    } else {
        None
    }
}

/// Whether every character of `s` is a digit in base `radix`.
pub open spec fn all_radix_digits(s: Seq<char>, radix: u32) -> bool {
    forall|k: int| 0 <= k < s.len() ==> (#[trigger] digit_value(s[k], radix)) is Some
}

/// The value of a run of base-`radix` digits.
pub open spec fn radix_value(s: Seq<char>, radix: u32) -> nat
    decreases s.len(),
{
    if s.len() == 0 {
        0
    } else {
        radix_value(s.drop_last(), radix) * radix as nat + match digit_value(s.last(), radix) {
            Some(d) => d,
            None => 0,
        }
    }
}

/// `usize::from_str_radix`: an optional `+`, then one or more digits in
/// base `radix` whose value fits in a `usize`.
pub open spec fn from_radix_spec(s: Seq<char>, radix: u32) -> Option<usize> {
    let digits = if s.len() > 0 && s[0] == '+' {
        s.drop_first()
    } else {
        s
    };
    if digits.len() > 0 && all_radix_digits(digits, radix) && radix_value(digits, radix) <= usize::MAX {
        Some(radix_value(digits, radix) as usize)
    } else {
        None
    }
}

/// Digits: `0` to `9` are worth 0 to 9 and letters (either case) 10 on,
/// `a` being 10; a digit is one only below the radix (so `a` to `f` are
/// the extra hexadecimal digits, and `8` is no octal digit).
pub proof fn lemma_digit_values(c: char, radix: u32)
    requires
        2 <= radix <= 36,
    ensures
        '0' <= c <= '9' && (c as int) - ('0' as int) < radix ==> digit_value(c, radix) == Some(((c as int) - ('0' as int)) as nat),
        'a' <= c <= 'z' && (c as int) - ('a' as int) + 10 < radix ==> digit_value(c, radix) == Some(((c as int) - ('a' as int) + 10) as nat),
        'A' <= c <= 'Z' && (c as int) - ('A' as int) + 10 < radix ==> digit_value(c, radix) == Some(((c as int) - ('A' as int) + 10) as nat),
        digit_value(c, radix) matches Some(v) ==> v < radix,
        !('0' <= c <= '9') && !('a' <= c <= 'z') && !('A' <= c <= 'Z') ==> digit_value(c, radix) is None,
        digit_value('f', 16) == Some(15nat) && digit_value('F', 16) == Some(15nat) && digit_value('g', 16) is None,
        digit_value('9', 10) == Some(9nat) && digit_value('a', 10) is None && digit_value('8', 8) is None,
{
}

/// Reading back the decimal digits of a number gives the number: every
/// character of `decimal(n)` is a digit, and together they are worth `n`.
pub proof fn lemma_decimal_reads_back(n: nat)
    ensures
        all_radix_digits(decimal(n), 10),
        radix_value(decimal(n), 10) == n,
        decimal(n).len() > 0,
        decimal(n)[0] != '+',
        n <= usize::MAX ==> from_radix_spec(decimal(n), 10) == Some(n as usize),
    decreases n,
{
    if n < 10 {
        assert(decimal(n) == seq![(n + 48) as char]);
        assert(digit_value(decimal(n)[0], 10) == Some(n));
        assert(decimal(n).drop_last() =~= Seq::<char>::empty());
        assert(radix_value(Seq::<char>::empty(), 10) == 0);
        assert(radix_value(decimal(n), 10) == radix_value(decimal(n).drop_last(), 10) * 10 + n);
    } else {
        lemma_decimal_reads_back(n / 10);
        let prefix = decimal(n / 10);
        let s = decimal(n);
        let c = ((n % 10) + 48) as char;
        assert(s == prefix.push(c));
        assert(s.drop_last() =~= prefix);
        assert(digit_value(c, 10) == Some(n % 10));
        assert forall|k: int| 0 <= k < s.len() implies (#[trigger] digit_value(s[k], 10)) is Some by {
            if k < prefix.len() {
                assert(s[k] == prefix[k]);
                assert(digit_value(prefix[k], 10) is Some);
            }
        }
        assert((n / 10) * 10 + n % 10 == n) by (nonlinear_arith);
        assert(radix_value(s, 10) == radix_value(prefix, 10) * 10 + n % 10);
        assert(s[0] == prefix[0]);
    }
}

/// `usize::from_str_radix(text, radix)`, which (for unsigned types) takes
/// an optional `+` and then digits of `radix`, failing where there are
/// none, where one is not a digit, or where the value overflows. On
/// failure the message is `ParseIntError`'s own text, which the contract
/// does not state.
#[verifier::external_body]
pub(crate) fn usize_from_str_radix(text: &str, radix: u32) -> (parsed: Result<usize, String>)
    requires
        2 <= radix <= 36,
    ensures
        parsed is Ok <==> from_radix_spec(text@, radix) is Some,
        parsed is Ok ==> parsed->Ok_0 == from_radix_spec(text@, radix)->0,
{
    usize::from_str_radix(text, radix).map_err(|error| error.to_string())
}

/// The byte offset `raw` names, in decimal or (with `0x` or `0X`) in hex.
pub open spec fn offset_spec(raw: Seq<char>) -> Option<usize> {
    if raw.len() >= 2 && raw[0] == '0' && (raw[1] == 'x' || raw[1] == 'X') {
        from_radix_spec(raw.skip(2), 16)
    } else {
        from_radix_spec(raw, 10)
    }
}

/// A byte offset given on the command line: decimal, or hex after `0x`.
pub fn parse_offset(raw: &str) -> (offset: Result<usize, String>)
    ensures
        offset is Ok <==> offset_spec(raw@) is Some,
        offset is Ok ==> offset->Ok_0 == offset_spec(raw@)->0,
        offset is Err ==> exists|reason: Seq<char>|
            offset->Err_0@ == "`"@ + raw@ + "` isn't a byte offset: "@ + reason,
{
    let chars = chars_of(raw);
    let hex = chars.len() >= 2 && chars[0] == '0' && (chars[1] == 'x' || chars[1] == 'X');
    let parsed = if hex {
        let digits = string_of(chars.as_slice(), 2, chars.len());
        proof {
            assert(chars@.subrange(2, chars@.len() as int) =~= raw@.skip(2));
        }
        usize_from_str_radix(digits.as_str(), 16)
    } else {
        usize_from_str_radix(raw, 10)
    };
    match parsed {
        Ok(offset) => Ok(offset),
        Err(reason) => {
            let mut message = String::from_str("`");
            message.append(raw);
            message.append("` isn't a byte offset: ");
            message.append(reason.as_str());
            assert(message@ == "`"@ + raw@ + "` isn't a byte offset: "@ + reason@);
            Err(message)
        },
    }
}

// ================
// line ranges
// ================

/// A `START-END` range given on the command line: both bounds, the start
/// no later than the end.
pub open spec fn range_spec(spec: Seq<char>) -> Result<(usize, usize), Seq<char>> {
    let dash = first_index_of(spec, '-') as int;
    if dash == spec.len() {
        Err("expected `START-END`, found `"@ + spec + "`"@)
    } else {
        let start = spec.take(dash);
        let end = spec.skip(dash + 1);
        match parse_usize_spec(start) {
            None => Err("`"@ + start + "` isn't a valid start"@),
            Some(s) => match parse_usize_spec(end) {
                None => Err("`"@ + end + "` isn't a valid end"@),
                Some(e) => if s > e {
                    Err("start ("@ + decimal(s as nat) + ") is after end ("@ + decimal(e as nat) + ")"@)
                } else {
                    Ok((s, e))
                },
            },
        }
    }
}

/// Parses `START-END`, split at the first `-`.
pub fn parse_range(spec: &str) -> (range: Result<(usize, usize), String>)
    ensures
        match range_spec(spec@) {
            Ok(bounds) => range == Ok::<(usize, usize), String>(bounds),
            Err(message) => range is Err && range->Err_0@ == message,
        },
{
    let chars = chars_of(spec);
    let dash = find_char(chars.as_slice(), 0, '-');
    proof {
        assert(chars@.subrange(0, chars@.len() as int) =~= spec@);
        lemma_first_index_of(spec@, '-');
    }
    if dash == chars.len() {
        let mut message = String::from_str("expected `START-END`, found `");
        message.append(spec);
        message.append("`");
        return Err(message);
    }
    let start_text = string_of(chars.as_slice(), 0, dash);
    let end_text = string_of(chars.as_slice(), dash + 1, chars.len());
    let start = chars_of(start_text.as_str());
    let end = chars_of(end_text.as_str());
    assert(start@ =~= spec@.take(dash as int));
    assert(end@ =~= spec@.skip(dash + 1));
    match parse_usize(start.as_slice()) {
        None => {
            let text = start_text;
            let mut message = String::from_str("`");
            message.append(text.as_str());
            message.append("` isn't a valid start");
            Err(message)
        },
        Some(s) => match parse_usize(end.as_slice()) {
            None => {
                let text = end_text;
                let mut message = String::from_str("`");
                message.append(text.as_str());
                message.append("` isn't a valid end");
                Err(message)
            },
            Some(e) => {
                if s > e {
                    let mut message = String::from_str("start (");
                    message.append(decimal_usize(s).as_str());
                    message.append(") is after end (");
                    message.append(decimal_usize(e).as_str());
                    message.append(")");
                    Err(message)
                } else {
                    Ok((s, e))
                }
            },
        },
    }
}

/// The byte offsets just after each newline among the first `n`
/// characters of `s`.
pub open spec fn newline_ends(s: Seq<char>, n: int) -> Seq<int>
    decreases n,
{
    if n <= 0 {
        Seq::empty()
    } else if s[n - 1] == '\n' {
        newline_ends(s, n - 1).push(byte_offset(s, n - 1) + 1)
    } else {
        newline_ends(s, n - 1)
    }
}

/// Every line's starting byte, then the end of the text.
pub open spec fn line_starts(s: Seq<char>) -> Seq<int> {
    seq![0int] + newline_ends(s, s.len() as int) + seq![byte_offset(s, s.len() as int)]
}

/// The byte range of the 1-indexed, inclusive lines `start_line` to
/// `end_line`: the start of the first through the start of the line after
/// the last (or the end of the text), each clamped into the text.
pub open spec fn line_range_spec(s: Seq<char>, start_line: usize, end_line: usize) -> (int, int) {
    let starts = line_starts(s);
    let last = starts.len() - 1;
    let wanted = if start_line == 0 {
        0
    } else {
        start_line - 1
    };
    let first = if wanted < last {
        wanted
    } else {
        last
    };
    let upto = if end_line < last {
        end_line as int
    } else {
        last
    };
    let after = if upto < first {
        first
    } else {
        upto
    };
    (starts[first], starts[after])
}

/// Converts a 1-indexed, inclusive line range into a byte range of `source`.
pub fn line_range_to_bytes(source: &str, start_line: usize, end_line: usize) -> (bytes: Range<usize>)
    ensures
        bytes.start == line_range_spec(source@, start_line, end_line).0,
        bytes.end == line_range_spec(source@, start_line, end_line).1,
{
    let chars = chars_of(source);
    let offsets = byte_offsets(source, &chars);
    let mut starts: Vec<usize> = Vec::new();
    starts.push(0);
    let mut k: usize = 0;
    while k < chars.len()
        invariant
            chars@ == source@,
            k <= chars@.len(),
            offsets@.len() == chars@.len() + 1,
            forall|j: int| 0 <= j <= chars@.len() ==> offsets@[j] == byte_offset(chars@, j),
            starts@.len() == newline_ends(chars@, k as int).len() + 1,
            starts@[0] == 0,
            forall|j: int|
                0 <= j < newline_ends(chars@, k as int).len() ==> starts@[j + 1] == #[trigger] newline_ends(
                    chars@,
                    k as int,
                )[j],
        decreases chars@.len() - k,
    {
        if chars[k] == '\n' {
            proof {
                crate::text::lemma_byte_offset_step(chars@, k as int);
            }
            starts.push(offsets[k] + 1);
        }
        k += 1;
    }
    starts.push(offsets[chars.len()]);
    let ghost model = line_starts(source@);
    assert(starts@ =~= model.map_values(|v: int| v as usize)) by {
        assert forall|j: int| 0 <= j < starts@.len() implies starts@[j] == model[j] by {
            if 0 < j < starts@.len() - 1 {
                assert(starts@[j] == newline_ends(chars@, chars@.len() as int)[j - 1]);
            }
        }
    }
    let last = starts.len() - 1;
    let wanted = if start_line == 0 {
        0
    } else {
        start_line - 1
    };
    let first = if wanted < last {
        wanted
    } else {
        last
    };
    let upto = if end_line < last {
        end_line
    } else {
        last
    };
    let after = if upto < first {
        first
    } else {
        upto
    };
    starts[first]..starts[after]
}

} // verus!
