//! The source files that diagnostics point into, and how a byte offset
//! becomes a line and column.
use vstd::prelude::*;
use vstd::utf8::*;

use vstd::string::*;

use crate::text::{chars_of, contains_seq, contains_str, split_lines, str_eq, string_from_chars};
use crate::token::Span;

verus! {

/// Which file of a [`SourceMap`] a label points into.
#[derive(Debug, Clone, Copy, PartialEq, Eq, Hash)]
pub struct SourceId(pub usize);

// ================
// lines and columns over UTF-8 bytes
// ================

/// The number of newline bytes among the first `k` bytes.
pub open spec fn newline_count(b: Seq<u8>, k: int) -> nat
    decreases k,
{
    if k <= 0 {
        0
    } else {
        newline_count(b, k - 1) + if b[k - 1] == 10 {
            1nat
        } else {
            0nat
        }
    }
}

/// Where the line holding byte position `k` starts: just past the last
/// newline before `k`, or 0.
pub open spec fn line_start_at(b: Seq<u8>, k: int) -> int
    decreases k,
{
    if k <= 0 {
        0
    } else if b[k - 1] == 10 {
        k
    } else {
        line_start_at(b, k - 1)
    }
}

/// The number of characters whose encoding starts in bytes `i..k`.
pub open spec fn char_count(b: Seq<u8>, i: int, k: int) -> nat
    decreases k - i,
{
    if k <= i {
        0
    } else {
        char_count(b, i, k - 1) + if is_continuation_byte(b[k - 1]) {
            0nat
        } else {
            1nat
        }
    }
}

pub proof fn lemma_counts_bounded(b: Seq<u8>, i: int, k: int)
    requires
        0 <= i,
        0 <= k,
    ensures
        newline_count(b, k) <= k,
        char_count(b, i, k) <= if k < i {
            0
        } else {
            k - i
        },
        0 <= line_start_at(b, k) <= k,
{
    lemma_line_counts_bounded(b, k);
    lemma_char_count_bounded(b, i, k);
}

proof fn lemma_line_counts_bounded(b: Seq<u8>, k: int)
    requires
        0 <= k,
    ensures
        newline_count(b, k) <= k,
        0 <= line_start_at(b, k) <= k,
    decreases k,
{
    if k > 0 {
        lemma_line_counts_bounded(b, k - 1);
    }
}

proof fn lemma_char_count_bounded(b: Seq<u8>, i: int, k: int)
    ensures
        char_count(b, i, k) <= if k < i {
            0
        } else {
            k - i
        },
    decreases k - i,
{
    if k > i {
        lemma_char_count_bounded(b, i, k - 1);
    }
}

/// The byte offsets at which lines start: 0, then one past each newline,
/// among the first `k` bytes.
pub open spec fn line_starts_upto(b: Seq<u8>, k: int) -> Seq<usize>
    decreases k,
{
    if k <= 0 {
        seq![0usize]
    } else if b[k - 1] == 10 {
        line_starts_upto(b, k - 1).push(k as usize)
    } else {
        line_starts_upto(b, k - 1)
    }
}

/// One loaded source file: its name and its text.
#[derive(Debug, Clone)]
pub struct SourceFile {
    pub name: String,
    pub source: String,
}

impl SourceFile {
    /// The UTF-8 encoding of the file's text.
    pub open spec fn bytes(&self) -> Seq<u8> {
        encode_utf8(self.source@)
    }

    /// The text is shorter than the largest `usize`, as any text in memory is.
    pub open spec fn wf(&self) -> bool {
        self.bytes().len() < usize::MAX
    }

    pub fn new(name: String, source: String) -> (file: SourceFile)
        requires
            encode_utf8(source@).len() < usize::MAX,
        ensures
            file.wf(),
            file.name == name,
            file.source == source,
    {
        SourceFile { name, source }
    }

    /// The 1-based line and column of a byte offset (clamped to the end of
    /// the text); the column counts characters.
    pub fn line_column(&self, offset: usize) -> (position: (usize, usize))
        requires
            self.wf(),
            offset < self.bytes().len() ==> is_char_boundary(self.bytes(), offset as int),
        ensures
            ({
                let o = if offset < self.bytes().len() {
                    offset as int
                } else {
                    self.bytes().len() as int
                };
                position == (
                    (newline_count(self.bytes(), o) + 1) as usize,
                    (char_count(self.bytes(), line_start_at(self.bytes(), o), o) + 1) as usize,
                )
            }),
    {
        let b = self.source.as_str().as_bytes();
        let o = if offset < b.len() {
            offset
        } else {
            b.len()
        };
        let mut line: usize = 0;
        let mut start: usize = 0;
        let mut i: usize = 0;
        while i < o
            invariant
                b@ == self.bytes(),
                o <= b@.len() < usize::MAX,
                i <= o,
                line == newline_count(b@, i as int),
                line <= i,
                start == line_start_at(b@, i as int),
                start <= i,
            decreases o - i,
        {
            if b[i] == 10 {
                line += 1;
                start = i + 1;
            }
            i += 1;
        }
        let mut column: usize = 0;
        let mut k: usize = start;
        while k < o
            invariant
                b@ == self.bytes(),
                o <= b@.len() < usize::MAX,
                start <= k <= o,
                column == char_count(b@, start as int, k as int),
                column <= k - start,
            decreases o - k,
        {
            if !(0x80 <= b[k] && b[k] <= 0xbf) {
                column += 1;
            }
            k += 1;
        }
        (line + 1, column + 1)
    }

    /// The text of a line, numbered from 1, without its newline.
    pub fn line(&self, one_based: usize) -> (text: Option<String>)
        requires
            self.wf(),
        ensures
            ({
                let lines = split_lines(self.source@);
                if 1 <= one_based <= lines.len() {
                    text matches Some(t) && t@ == lines[one_based - 1]
                } else {
                    text is None
                }
            }),
    {
        let chars = chars_of(self.source.as_str());
        let ghost s = self.source@;
        let mut lines_before: usize = 0;
        let mut current: Vec<char> = Vec::new();
        let mut found: Option<String> = None;
        let mut i: usize = 0;
        proof {
            assert(s.take(0) =~= Seq::<char>::empty());
        }
        while i < chars.len()
            invariant
                chars@ == s,
                i <= s.len(),
                split_lines(s.take(i as int)).len() == lines_before + 1,
                current@ == split_lines(s.take(i as int)).last(),
                found is None ==> one_based == 0 || one_based >= lines_before + 1,
                lines_before <= i,
                found matches Some(t) ==> 1 <= one_based <= lines_before && t@ == split_lines(
                    s.take(i as int),
                )[one_based - 1],
            decreases s.len() - i,
        {
            let ghost before = split_lines(s.take(i as int));
            assert(s.take(i + 1).drop_last() =~= s.take(i as int));
            if chars[i] == '\n' {
                if one_based > 0 && lines_before == one_based - 1 {
                    found = Some(string_from_chars(current.as_slice()));
                }
                current = Vec::new();
                lines_before = lines_before + 1;
            } else {
                current.push(chars[i]);
            }
            i += 1;
        }
        assert(s.take(s.len() as int) =~= s);
        if found.is_none() && one_based > 0 && lines_before == one_based - 1 {
            found = Some(string_from_chars(current.as_slice()));
        }
        found
    }

    /// The byte offset at which a line, numbered from 1, starts.
    pub fn line_start(&self, one_based: usize) -> (start: Option<usize>)
        requires
            self.wf(),
        ensures
            ({
                let starts = line_starts_upto(self.bytes(), self.bytes().len() as int);
                if 1 <= one_based <= starts.len() {
                    start == Some(starts[one_based - 1])
                } else {
                    start is None
                }
            }),
    {
        let b = self.source.as_str().as_bytes();
        let mut line_starts: Vec<usize> = Vec::new();
        line_starts.push(0);
        let mut i: usize = 0;
        while i < b.len()
            invariant
                b@ == self.bytes(),
                b@.len() < usize::MAX,
                i <= b@.len(),
                line_starts@ == line_starts_upto(b@, i as int),
            decreases b@.len() - i,
        {
            if b[i] == 10 {
                line_starts.push(i + 1);
            }
            i += 1;
        }
        if one_based == 0 || one_based > line_starts.len() {
            None
        } else {
            Some(line_starts[one_based - 1])
        }
    }
}

// ================
// the map
// ================

/// The files that diagnostics point into, in the order they were added.
#[derive(Debug, Clone)]
pub struct SourceMap {
    files: Vec<SourceFile>,
}

impl SourceMap {
    pub closed spec fn view(&self) -> Seq<SourceFile> {
        self.files@
    }

    pub closed spec fn wf(&self) -> bool {
        forall|i: int| 0 <= i < self.files@.len() ==> #[trigger] self.files@[i].wf()
    }

    pub fn new() -> (map: SourceMap)
        ensures
            map.wf(),
            map.view() == Seq::<SourceFile>::empty(),
    {
        SourceMap { files: Vec::new() }
    }

    pub fn len(&self) -> (n: usize)
        ensures
            n == self.view().len(),
    {
        self.files.len()
    }

    /// Adds a file under `name` and returns its id; a name already present
    /// gives back the id it has.
    pub fn add(&mut self, name: String, source: String) -> (id: SourceId)
        requires
            old(self).wf(),
            encode_utf8(source@).len() < usize::MAX,
        ensures
            final(self).wf(),
            match first_named(old(self).view(), name@) {
                Some(index) => id == SourceId(index as usize) && final(self).view() == old(self).view(),
                None => id == SourceId(old(self).view().len() as usize) && final(self).view()
                    == old(self).view().push(final(self).view().last()) && final(self).view().last().name
                    == name && final(self).view().last().source == source,
            },
    {
        let mut i: usize = 0;
        while i < self.files.len()
            invariant
                self.wf(),
                self.files@ == old(self).files@,
                forall|j: int| 0 <= j < i ==> #[trigger] self.files@[j].name@ != name@,
                i <= self.files@.len(),
            decreases self.files@.len() - i,
        {
            if str_eq(self.files[i].name.as_str(), name.as_str()) {
                proof {
                    lemma_first_named(self.files@, name@, i as int);
                }
                return SourceId(i);
            }
            i += 1;
        }
        proof {
            lemma_first_named_none(self.files@, name@);
        }
        let id = SourceId(self.files.len());
        let file = SourceFile::new(name, source);
        self.files.push(file);
        proof {
            assert forall|j: int| 0 <= j < self.files@.len() implies #[trigger] self.files@[j].wf() by {
                if j < old(self).files@.len() {
                    assert(self.files@[j] == old(self).files@[j]);
                }
            }
        }
        id
    }

    /// The file with this id, if there is one.
    pub fn get(&self, id: SourceId) -> (file: Option<&SourceFile>)
        requires
            self.wf(),
        ensures
            if id.0 < self.view().len() {
                file == Some(&self.view()[id.0 as int]) && self.view()[id.0 as int].wf()
            } else {
                file is None
            },
    {
        if id.0 < self.files.len() {
            Some(&self.files[id.0])
        } else {
            None
        }
    }

    /// The one file whose text over `span` is `needle`, or contains it (any
    /// in-bounds span will do without a needle); `None` where no file or
    /// more than one file fits.
    pub fn locate_span(&self, span: Span, needle: Option<&str>) -> (found: Option<SourceId>)
        requires
            self.wf(),
        ensures
            match found {
                Some(id) => id.0 < self.view().len() && span_fits(self.view()[id.0 as int], span, needle)
                    && forall|j: int|
                    0 <= j < self.view().len() && j != id.0 ==> !span_fits(self.view()[j], span, needle),
                None => forall|i: int|
                    0 <= i < self.view().len() && span_fits(self.view()[i], span, needle) ==> exists|k: int|
                        0 <= k < self.view().len() && k != i && span_fits(self.view()[k], span, needle),
            },
    {
        let mut found: Option<SourceId> = None;
        let mut count: usize = 0;
        let mut i: usize = 0;
        while i < self.files.len()
            invariant
                self.wf(),
                i <= self.files@.len(),
                count <= i,
                count == 0 <==> (forall|k: int| 0 <= k < i ==> !span_fits(self.files@[k], span, needle)),
                count == 1 ==> (found matches Some(id) && id.0 < i && span_fits(self.files@[id.0 as int], span, needle)
                    && forall|k: int| 0 <= k < i && k != id.0 ==> !span_fits(self.files@[k], span, needle)),
                count >= 2 ==> exists|a: int, c: int|
                    0 <= a < c < i && span_fits(self.files@[a], span, needle) && span_fits(self.files@[c], span, needle),
            decreases self.files@.len() - i,
        {
            let fits = file_span_fits(&self.files[i], span, needle);
            if fits {
                if count == 0 {
                    found = Some(SourceId(i));
                    count = 1;
                } else {
                    proof {
                        if count == 1 {
                            let id = found.unwrap();
                            assert(0 <= id.0 < i && span_fits(self.files@[id.0 as int], span, needle));
                        }
                    }
                    count = 2;
                }
            }
            i += 1;
        }
        if count == 1 {
            found
        } else {
            proof {
                if count >= 2 {
                    let (a, c) = choose|a: int, c: int|
                        0 <= a < c < i && span_fits(self.files@[a], span, needle) && span_fits(
                            self.files@[c],
                            span,
                            needle,
                        );
                    assert forall|j: int|
                        0 <= j < self.view().len() && span_fits(self.view()[j], span, needle) implies exists|k: int|
                        0 <= k < self.view().len() && k != j && span_fits(self.view()[k], span, needle) by {
                        if j != a {
                            assert(span_fits(self.view()[a], span, needle));
                        } else {
                            assert(span_fits(self.view()[c], span, needle));
                        }
                    }
                }
            }
            None
        }
    }
}

/// The first index whose file carries `name`.
pub open spec fn first_named(files: Seq<SourceFile>, name: Seq<char>) -> Option<int> {
    if exists|i: int| 0 <= i < files.len() && #[trigger] files[i].name@ == name {
        let i = choose|i: int|
            0 <= i < files.len() && files[i].name@ == name && forall|j: int|
                0 <= j < i ==> #[trigger] files[j].name@ != name;
        Some(i)
    } else {
        None
    }
}

proof fn lemma_first_named(files: Seq<SourceFile>, name: Seq<char>, i: int)
    requires
        0 <= i < files.len(),
        files[i].name@ == name,
        forall|j: int| 0 <= j < i ==> #[trigger] files[j].name@ != name,
    ensures
        first_named(files, name) == Some(i),
{
    let k = choose|k: int|
        0 <= k < files.len() && files[k].name@ == name && forall|j: int|
            0 <= j < k ==> #[trigger] files[j].name@ != name;
    assert(0 <= k < files.len() && files[k].name@ == name && forall|j: int|
        0 <= j < k ==> #[trigger] files[j].name@ != name);
    if k < i {
        assert(files[k].name@ != name);
    }
    if k > i {
        assert(files[i].name@ != name);
    }
}

proof fn lemma_first_named_none(files: Seq<SourceFile>, name: Seq<char>)
    requires
        forall|j: int| 0 <= j < files.len() ==> #[trigger] files[j].name@ != name,
    ensures
        first_named(files, name) is None,
{
}

/// Whether a file's text over `span` can be read (the span lies inside the
/// text, on character boundaries) and, given a needle, equals or contains it.
pub open spec fn span_fits(file: SourceFile, span: Span, needle: Option<&str>) -> bool {
    let b = file.bytes();
    &&& span.start <= span.end <= b.len()
    &&& is_char_boundary(b, span.start as int)
    &&& is_char_boundary(b, span.end as int)
    &&& match needle {
        None => true,
        Some(n) => contains_seq(decode_utf8(b.subrange(span.start as int, span.end as int)), n@),
    }
}

proof fn lemma_boundary_shift(bytes: Seq<u8>, a: int, b: int)
    requires
        valid_utf8(bytes),
        0 <= a <= b <= bytes.len(),
        is_char_boundary(bytes, a),
        is_char_boundary(bytes, b),
    ensures
        is_char_boundary(bytes.subrange(a, bytes.len() as int), b - a),
{
    let tail = bytes.subrange(a, bytes.len() as int);
    valid_utf8_split(bytes, a);
    if b < bytes.len() {
        is_char_boundary_iff_not_is_continuation_byte(bytes, b);
        is_char_boundary_iff_not_is_continuation_byte(tail, b - a);
    } else {
        is_char_boundary_start_end_of_seq(tail);
    }
}

fn file_span_fits(file: &SourceFile, span: Span, needle: Option<&str>) -> (fits: bool)
    requires
        file.wf(),
    ensures
        fits == span_fits(*file, span, needle),
{
    proof {
        encode_utf8_valid_utf8(file.source@);
    }
    let text = file.source.as_str();
    if !(span.start <= span.end && span.end <= text.len()) {
        return false;
    }
    if !text.is_char_boundary(span.start) || !text.is_char_boundary(span.end) {
        return false;
    }
    match needle {
        None => true,
        Some(n) => {
            let (_, tail) = text.split_at(span.start);
            proof {
                valid_utf8_split(file.bytes(), span.start as int);
                assert(tail.spec_bytes() =~= file.bytes().subrange(span.start as int, file.bytes().len() as int));
                assert(is_char_boundary(tail.spec_bytes(), (span.end - span.start) as int)) by {
                    lemma_boundary_shift(file.bytes(), span.start as int, span.end as int);
                }
            }
            let (piece, _) = tail.split_at(span.end - span.start);
            proof {
                assert(piece.spec_bytes() =~= file.bytes().subrange(span.start as int, span.end as int));
                encode_utf8_decode_utf8(piece@);
            }
            contains_str(piece, n)
        },
    }
}

proof fn lemma_line_starts(b: Seq<u8>, k: int)
    requires
        0 <= k <= b.len(),
        b.len() <= usize::MAX,
    ensures
        line_starts_upto(b, k).len() == newline_count(b, k) + 1,
        forall|m: int|
            0 <= m < line_starts_upto(b, k).len() ==> {
                let start = #[trigger] line_starts_upto(b, k)[m] as int;
                &&& start <= k
                &&& newline_count(b, start) == m
                &&& line_start_at(b, start) == start
            },
    decreases k,
{
    if k > 0 {
        lemma_line_starts(b, k - 1);
        let before = line_starts_upto(b, k - 1);
        if b[k - 1] == 10 {
            let after = before.push(k as usize);
            assert(line_starts_upto(b, k) == after);
            assert forall|m: int| 0 <= m < after.len() implies {
                let start = #[trigger] after[m] as int;
                &&& start <= k
                &&& newline_count(b, start) == m
                &&& line_start_at(b, start) == start
            } by {
                if m < before.len() {
                    assert(after[m] == before[m]);
                }
            }
        }
    }
}

/// A line starts at or before any position on it.
proof fn lemma_line_start_before(b: Seq<u8>, k: int)
    requires
        0 <= k,
    ensures
        0 <= line_start_at(b, k) <= k,
    decreases k,
{
    if k > 0 && b[k - 1] != 10 {
        lemma_line_start_before(b, k - 1);
    }
}

/// Lines and columns, one byte at a time: a line break (`\n`) starts a new
/// line at column 1; any other byte stays on its line, and moves one
/// column on when it starts a character, none when it continues one.
pub proof fn lemma_line_column_steps(b: Seq<u8>, o: int)
    requires
        0 < o <= b.len(),
    ensures
        b[o - 1] == 10 ==> newline_count(b, o) == newline_count(b, o - 1) + 1 && line_start_at(b, o) == o
            && char_count(b, line_start_at(b, o), o) == 0,
        b[o - 1] != 10 ==> newline_count(b, o) == newline_count(b, o - 1) && line_start_at(b, o) == line_start_at(
            b,
            o - 1,
        ),
        b[o - 1] != 10 && !is_continuation_byte(b[o - 1]) ==> char_count(b, line_start_at(b, o), o) == char_count(
            b,
            line_start_at(b, o - 1),
            o - 1,
        ) + 1,
        b[o - 1] != 10 && is_continuation_byte(b[o - 1]) ==> char_count(b, line_start_at(b, o), o) == char_count(
            b,
            line_start_at(b, o - 1),
            o - 1,
        ),
{
    lemma_line_start_before(b, o - 1);
}

/// Where `line_start` says a line begins, `line_column` reports that line
/// and the first column.
pub proof fn lemma_line_start_is_first_column(file: SourceFile, line: int)
    requires
        file.wf(),
        1 <= line <= line_starts_upto(file.bytes(), file.bytes().len() as int).len(),
    ensures
        ({
            let b = file.bytes();
            let start = line_starts_upto(b, b.len() as int)[line - 1] as int;
            &&& newline_count(b, start) + 1 == line
            &&& char_count(b, line_start_at(b, start), start) + 1 == 1
            &&& start <= b.len()
        }),
{
    let b = file.bytes();
    lemma_line_starts(b, b.len() as int);
    let start = line_starts_upto(b, b.len() as int)[line - 1] as int;
    assert(newline_count(b, start) == line - 1);
}

} // verus!
