//! Diagnostics: which of a file's are shown, and where those of the compiler point to.
use crate::ordered::chars_of;
use crate::paths::strip_prefix;
use crate::text::{decimal, decimal_of, law_decimals_differ};
use vstd::prelude::*;
use vstd::utf8::encode_utf8;

verus! {

#[derive(Clone, Copy, Debug, PartialEq, Eq, Structural)]
pub struct Position {
    pub line: u32,
    pub character: u32,
}

#[derive(Clone, Copy, Debug, PartialEq, Eq, Structural)]
pub struct Range {
    pub start: Position,
    pub end: Position,
}

#[derive(Debug)]
pub enum DiagnosticCode {
    Int(i32),
    Text(String),
}

/// What matters of a diagnostic: where it is, who says it, and its code.
#[derive(Debug)]
pub struct Diagnostic {
    pub range: Range,
    pub source: Option<String>,
    pub code: Option<DiagnosticCode>,
}

#[verifier::ext_equal]
pub struct DiagnosticView {
    pub range: Range,
    pub source: Option<Seq<char>>,
    /// The code in words.
    pub code: Option<Seq<char>>,
}

impl View for Diagnostic {
    type V = DiagnosticView;

    open spec fn view(&self) -> DiagnosticView {
        DiagnosticView {
            range: self.range,
            source: self.source.deep_view(),
            code: match self.code {
                None => None,
                Some(DiagnosticCode::Int(code)) => Some(decimal(code as int)),
                Some(DiagnosticCode::Text(code)) => Some(code@),
            },
        }
    }
}

pub open spec fn diagnostic_views(list: Seq<Diagnostic>) -> Seq<DiagnosticView> {
    list.map_values(|d: Diagnostic| d@)
}

pub open spec fn same_finding(a: DiagnosticView, b: DiagnosticView) -> bool {
    a.range == b.range && a.code == b.code
}

/// The compiler reports the same finding.
pub open spec fn reported(list: Seq<DiagnosticView>, d: DiagnosticView) -> bool {
    exists|i: int| 0 <= i < list.len() && (#[trigger] list[i]).source == Some("rustc"@) && same_finding(list[i], d)
}

/// A finding of the analyzer is shown unless the compiler reports it too.
pub open spec fn shown(list: Seq<DiagnosticView>, d: DiagnosticView) -> bool {
    d.source != Some("rust-analyzer"@) || !reported(list, d)
}

fn source_is(source: &Option<String>, name: &str) -> (r: bool)
    ensures
        r == (source.deep_view() == Some(name@)),
{
    match source {
        Some(source) => *source == String::from_str(name),
        None => false,
    }
}

fn code_text(code: &Option<DiagnosticCode>) -> (r: Option<String>)
    ensures
        r.deep_view() == (match code {
            None => None,
            Some(DiagnosticCode::Int(code)) => Some(decimal(*code as int)),
            Some(DiagnosticCode::Text(code)) => Some(code@),
        }),
{
    match code {
        None => None,
        Some(DiagnosticCode::Int(code)) => Some(decimal_of(*code)),
        Some(DiagnosticCode::Text(code)) => Some(code.clone()),
    }
}

fn is_same_finding(a: &Diagnostic, b: &Diagnostic) -> (r: bool)
    ensures
        r == same_finding(a@, b@),
{
    if a.range != b.range {
        return false;
    }
    match (code_text(&a.code), code_text(&b.code)) {
        (Some(a), Some(b)) => a == b,
        (None, None) => true,
        _ => false,
    }
}

fn is_reported(list: &Vec<Diagnostic>, d: &Diagnostic) -> (r: bool)
    ensures
        r == reported(diagnostic_views(list@), d@),
{
    let ghost views = diagnostic_views(list@);
    let mut i: usize = 0;
    while i < list.len()
        invariant
            i <= list.len(),
            views == diagnostic_views(list@),
            forall|j: int| 0 <= j < i ==> !((#[trigger] views[j]).source == Some("rustc"@) && same_finding(views[j], d@)),
        decreases list.len() - i,
    {
        proof {
            assert(views[i as int] == list@[i as int]@);
        }
        if source_is(&list[i].source, "rustc") && is_same_finding(&list[i], d) {
            return true;
        }
        i = i + 1;
    }
    false
}

/// Which diagnostics of a file are shown.
pub fn filter_diagnostics(diagnostics: &Vec<Diagnostic>) -> (r: Vec<bool>)
    ensures
        r@.len() == diagnostics@.len(),
        forall|i: int|
            0 <= i < diagnostics@.len() ==> #[trigger] r@[i] == shown(diagnostic_views(diagnostics@), diagnostics@[i]@),
{
    let mut r: Vec<bool> = Vec::new();
    let mut i: usize = 0;
    while i < diagnostics.len()
        invariant
            i <= diagnostics.len(),
            r@.len() == i,
            forall|j: int| 0 <= j < i ==> #[trigger] r@[j] == shown(diagnostic_views(diagnostics@), diagnostics@[j]@),
        decreases diagnostics.len() - i,
    {
        let d = &diagnostics[i];
        let show = !source_is(&d.source, "rust-analyzer") || !is_reported(diagnostics, d);
        r.push(show);
        i = i + 1;
    }
    r
}

/// What the compiler reports is never filtered out.
pub proof fn law_compiler_diagnostics_are_shown(list: Seq<DiagnosticView>, i: int)
    requires
        0 <= i < list.len(),
        list[i].source == Some("rustc"@),
    ensures
        shown(list, list[i]),
{
    reveal_strlit("rustc");
    reveal_strlit("rust-analyzer");
    assert("rustc"@.len() != "rust-analyzer"@.len());
}

/// Nothing that the analyzer found is lost: what is not shown is reported by the compiler, which is
/// shown.
pub proof fn law_no_finding_is_lost(list: Seq<DiagnosticView>, i: int)
    requires
        0 <= i < list.len(),
    ensures
        exists|j: int| 0 <= j < list.len() && same_finding(#[trigger] list[j], list[i]) && shown(list, list[j]),
{
    if shown(list, list[i]) {
        assert(same_finding(list[i], list[i]));
    } else {
        let j = choose|j: int| 0 <= j < list.len() && (#[trigger] list[j]).source == Some("rustc"@) && same_finding(list[j], list[i]);
        law_compiler_diagnostics_are_shown(list, j);
        assert(same_finding(list[j], list[i]));
    }
}

/// Of the analyzer's findings only those are left out that the compiler reports too: a diagnostic is
/// left out exactly when it is the analyzer's and the compiler has one in the list that starts at the
/// same line and character, ends at the same line and character, and has the same code.
pub proof fn law_only_repeated_findings_are_hidden(list: Seq<DiagnosticView>, i: int)
    requires
        0 <= i < list.len(),
    ensures
        !shown(list, list[i]) <==> list[i].source == Some("rust-analyzer"@) && exists|j: int|
            0 <= j < list.len() && (#[trigger] list[j]).source == Some("rustc"@) && list[j].range.start.line
                == list[i].range.start.line && list[j].range.start.character == list[i].range.start.character
                && list[j].range.end.line == list[i].range.end.line && list[j].range.end.character
                == list[i].range.end.character && list[j].code == list[i].code,
{
    if !shown(list, list[i]) {
        let j = choose|j: int| 0 <= j < list.len() && (#[trigger] list[j]).source == Some("rustc"@) && same_finding(list[j], list[i]);
        assert(list[j].code == list[i].code);
    }
    if exists|j: int|
        0 <= j < list.len() && (#[trigger] list[j]).source == Some("rustc"@) && list[j].range.start.line
            == list[i].range.start.line && list[j].range.start.character == list[i].range.start.character
            && list[j].range.end.line == list[i].range.end.line && list[j].range.end.character == list[i].range.end.character
            && list[j].code == list[i].code {
        let j = choose|j: int|
            0 <= j < list.len() && (#[trigger] list[j]).source == Some("rustc"@) && list[j].range.start.line
                == list[i].range.start.line && list[j].range.start.character == list[i].range.start.character
                && list[j].range.end.line == list[i].range.end.line && list[j].range.end.character
                == list[i].range.end.character && list[j].code == list[i].code;
        assert(list[j].range.start == list[i].range.start && list[j].range.end == list[i].range.end);
        assert(same_finding(list[j], list[i]));
    }
}

/// Codes are compared as they are read: two texts as texts, two numbers as numbers, and a number
/// with a text by its decimal digits. A diagnostic without a code is like no other that has one.
pub proof fn law_codes_are_compared_as_read(a: Diagnostic, b: Diagnostic)
    ensures
        a@.code == b@.code <==> (match (a.code, b.code) {
            (None, None) => true,
            (Some(DiagnosticCode::Text(x)), Some(DiagnosticCode::Text(y))) => x@ == y@,
            (Some(DiagnosticCode::Int(x)), Some(DiagnosticCode::Int(y))) => x == y,
            (Some(DiagnosticCode::Int(x)), Some(DiagnosticCode::Text(y))) => decimal(x as int) == y@,
            (Some(DiagnosticCode::Text(x)), Some(DiagnosticCode::Int(y))) => x@ == decimal(y as int),
            _ => false,
        }),
        a@.range == a.range,
        a@.source is Some <==> a.source is Some,
        a.source matches Some(source) ==> a@.source == Some(source@),
{
    match (a.code, b.code) {
        (Some(DiagnosticCode::Int(x)), Some(DiagnosticCode::Int(y))) => {
            if x != y {
                law_decimals_differ(x as int, y as int);
            }
        },
        _ => {},
    }
}

/// How the editor counts columns.
#[derive(Clone, Copy, Debug, PartialEq, Eq, Structural)]
pub enum PositionEncoding {
    Utf8,
    Utf16,
    Utf32,
}

/// What the compiler says of a place: the first and the last line, counted from one, with columns
/// counted in characters from one, and the text of the lines.
#[derive(Debug)]
pub struct DiagnosticSpan {
    pub line_start: usize,
    pub line_end: usize,
    pub column_start: usize,
    pub column_end: usize,
    pub text: Vec<String>,
}

impl PositionEncoding {
    /// How many columns a character takes.
    pub open spec fn width(self, c: char) -> nat {
        match self {
            PositionEncoding::Utf8 => if (c as u32) < 0x80 {
                1
            } else if (c as u32) < 0x800 {
                2
            } else if (c as u32) < 0x1_0000 {
                3
            } else {
                4
            },
            PositionEncoding::Utf16 => if (c as u32) < 0x1_0000 {
                1
            } else {
                2
            },
            PositionEncoding::Utf32 => 1,
        }
    }

    pub open spec fn measure(self, t: Seq<char>) -> nat
        decreases t.len(),
    {
        if t.len() == 0 {
            0
        } else {
            self.measure(t.drop_last()) + self.width(t.last())
        }
    }

    fn width_of(self, c: char) -> (r: usize)
        ensures
            r == self.width(c),
            r <= 4,
    {
        let code: u32 = c as u32;
        match self {
            PositionEncoding::Utf8 => if code < 0x80 {
                1
            } else if code < 0x800 {
                2
            } else if code < 0x1_0000 {
                3
            } else {
                4
            },
            PositionEncoding::Utf16 => if code < 0x1_0000 {
                1
            } else {
                2
            },
            PositionEncoding::Utf32 => 1,
        }
    }
}

pub open spec fn is_ascii_text(t: Seq<char>) -> bool {
    forall|i: int| 0 <= i < t.len() ==> (#[trigger] t[i] as u32) < 0x80
}

/// The column of the editor for a column in characters: they are the same in a line of plain
/// letters and where the line is not known, and else the characters before it are measured.
pub open spec fn encoded_column(encoding: PositionEncoding, line: Option<Seq<char>>, column: usize) -> int {
    match line {
        None => column as int,
        Some(line) => if is_ascii_text(line) {
            column as int
        } else if column < line.len() {
            encoding.measure(line.take(column as int)) as int
        } else {
            encoding.measure(line) as int
        },
    }
}

pub open spec fn span_line(span: DiagnosticSpan, line_number: usize) -> Option<Seq<char>> {
    if line_number - span.line_start < span.text@.len() {
        Some(span.text@[line_number - span.line_start]@)
    } else {
        None
    }
}

pub open spec fn back_one(n: u32) -> u32 {
    if n == 0 {
        0
    } else {
        (n - 1) as u32
    }
}

pub open spec fn span_position(encoding: PositionEncoding, span: DiagnosticSpan, line_number: usize, column: usize) -> Position {
    Position {
        line: back_one(line_number as u32),
        character: encoded_column(encoding, span_line(span, line_number), column) as usize as u32,
    }
}

/// The measures of all lines fit.
pub open spec fn lines_fit(span: DiagnosticSpan) -> bool {
    forall|i: int| 0 <= i < span.text@.len() ==> 4 * (#[trigger] span.text@[i])@.len() <= usize::MAX
}

proof fn lemma_measure(encoding: PositionEncoding, t: Seq<char>)
    ensures
        encoding.measure(t) <= 4 * t.len(),
    decreases t.len(),
{
    if t.len() > 0 {
        lemma_measure(encoding, t.drop_last());
    }
}

fn column_of(encoding: PositionEncoding, line: &String, column: usize) -> (r: usize)
    requires
        4 * line@.len() <= usize::MAX,
    ensures
        r == encoded_column(encoding, Some(line@), column),
{
    let chars = chars_of(line.as_str());
    let n = chars.len();
    let mut ascii = true;
    let mut i: usize = 0;
    while i < n
        invariant
            i <= n,
            n == chars@.len(),
            ascii == (forall|j: int| 0 <= j < i ==> (#[trigger] chars@[j] as u32) < 0x80),
        decreases n - i,
    {
        if chars[i] as u32 >= 0x80 {
            ascii = false;
        }
        i = i + 1;
    }
    if ascii {
        return column;
    }
    let end: usize = if column < n {
        column
    } else {
        n
    };
    let mut r: usize = 0;
    let mut k: usize = 0;
    proof {
        assert(chars@.take(0) =~= Seq::<char>::empty());
    }
    while k < end
        invariant
            k <= end <= n,
            n == chars@.len(),
            4 * n <= usize::MAX,
            r == encoding.measure(chars@.take(k as int)),
        decreases end - k,
    {
        let width = encoding.width_of(chars[k]);
        proof {
            assert(chars@.take(k + 1).drop_last() =~= chars@.take(k as int));
            lemma_measure(encoding, chars@.take(k + 1));
        }
        r = r + width;
        k = k + 1;
    }
    proof {
        assert(chars@.take(n as int) =~= chars@);
    }
    r
}

fn position(encoding: PositionEncoding, span: &DiagnosticSpan, line_number: usize, column: usize) -> (r: Position)
    requires
        span.line_start <= line_number,
        lines_fit(*span),
    ensures
        r == span_position(encoding, *span, line_number, column),
{
    let index = line_number - span.line_start;
    let encoded = if index < span.text.len() {
        column_of(encoding, &span.text[index], column)
    } else {
        column
    };
    let line: u32 = line_number as u32;
    Position {
        line: if line == 0 {
            0
        } else {
            line - 1
        },
        character: encoded as u32,
    }
}

pub open spec fn before(n: usize) -> usize {
    if n == 0 {
        0
    } else {
        (n - 1) as usize
    }
}

fn one_less(n: usize) -> (r: usize)
    ensures
        r == before(n),
{
    if n == 0 {
        0
    } else {
        n - 1
    }
}

/// The range of the editor that a span of the compiler covers.
pub fn span_range(encoding: PositionEncoding, span: &DiagnosticSpan) -> (r: Range)
    requires
        span.line_start <= span.line_end,
        lines_fit(*span),
    ensures
        r.start == span_position(encoding, *span, span.line_start, before(span.column_start)),
        r.end == span_position(encoding, *span, span.line_end, before(span.column_end)),
{
    Range {
        start: position(encoding, span, span.line_start, one_less(span.column_start)),
        end: position(encoding, span, span.line_end, one_less(span.column_end)),
    }
}

/// A file name with the first of the prefixes from `n` on that fits replaced.
pub open spec fn remapped(prefixes: Seq<(Seq<char>, Seq<char>)>, name: Seq<char>, n: int) -> Seq<char>
    decreases prefixes.len() - n,
{
    if n >= prefixes.len() {
        name
    } else if prefixes[n].0.is_prefix_of(name) {
        prefixes[n].1 + name.skip(prefixes[n].0.len() as int)
    } else {
        remapped(prefixes, name, n + 1)
    }
}

/// The file name that a span gives, with the first prefix that fits replaced. It is relative to the
/// root of the workspace unless it is absolute.
pub fn resolve_path(remap_prefix: &Vec<(String, String)>, file_name: &String) -> (r: String)
    ensures
        r@ == remapped(remap_prefix.deep_view(), file_name@, 0),
{
    let ghost prefixes = remap_prefix.deep_view();
    let mut i: usize = 0;
    proof {
        assert(prefixes.len() == remap_prefix@.len());
    }
    while i < remap_prefix.len()
        invariant
            i <= remap_prefix.len(),
            prefixes == remap_prefix.deep_view(),
            prefixes.len() == remap_prefix@.len(),
            remapped(prefixes, file_name@, 0) == remapped(prefixes, file_name@, i as int),
        decreases remap_prefix.len() - i,
    {
        proof {
            assert(prefixes[i as int] == (remap_prefix@[i as int].0@, remap_prefix@[i as int].1@));
        }
        match strip_prefix(file_name.as_str(), remap_prefix[i].0.as_str()) {
            Some(rest) => {
                let mut r = remap_prefix[i].1.clone();
                r.append(rest.as_str());
                proof {
                    let prefix = prefixes[i as int].0;
                    assert(prefix.is_prefix_of(file_name@));
                    assert(rest@ =~= file_name@.skip(prefix.len() as int));
                }
                return r;
            },
            None => {},
        }
        i = i + 1;
    }
    file_name.clone()
}

proof fn lemma_remapped(prefixes: Seq<(Seq<char>, Seq<char>)>, name: Seq<char>, n: int, i: int)
    requires
        0 <= n <= i <= prefixes.len(),
        forall|j: int| n <= j < i ==> !(#[trigger] prefixes[j]).0.is_prefix_of(name),
    ensures
        remapped(prefixes, name, n) == remapped(prefixes, name, i),
    decreases i - n,
{
    if n < i {
        assert(!prefixes[n].0.is_prefix_of(name));
        lemma_remapped(prefixes, name, n + 1, i);
    }
}

/// The first prefix that a file name begins with is replaced, and what follows it stays: for a name
/// that is the prefix and some rest, the result is the replacement and that rest.
pub proof fn law_first_prefix_is_replaced(prefixes: Seq<(Seq<char>, Seq<char>)>, i: int, rest: Seq<char>)
    requires
        0 <= i < prefixes.len(),
        forall|j: int| 0 <= j < i ==> !(#[trigger] prefixes[j]).0.is_prefix_of(prefixes[i].0 + rest),
    ensures
        remapped(prefixes, prefixes[i].0 + rest, 0) == prefixes[i].1 + rest,
{
    let name = prefixes[i].0 + rest;
    lemma_remapped(prefixes, name, 0, i);
    assert(prefixes[i].0.is_prefix_of(name)) by {
        assert(name.subrange(0, prefixes[i].0.len() as int) =~= prefixes[i].0);
    }
    assert(name.skip(prefixes[i].0.len() as int) =~= rest);
}

/// A file name that begins with none of the prefixes stays as it is.
pub proof fn law_other_names_are_kept(prefixes: Seq<(Seq<char>, Seq<char>)>, name: Seq<char>)
    requires
        forall|j: int| 0 <= j < prefixes.len() ==> !(#[trigger] prefixes[j]).0.is_prefix_of(name),
    ensures
        remapped(prefixes, name, 0) == name,
{
    lemma_remapped(prefixes, name, 0, prefixes.len() as int);
}

proof fn lemma_measure_front(encoding: PositionEncoding, t: Seq<char>)
    requires
        t.len() > 0,
    ensures
        encoding.measure(t) == encoding.width(t[0]) + encoding.measure(t.drop_first()),
    decreases t.len(),
{
    reveal_with_fuel(PositionEncoding::measure, 2);
    if t.len() > 1 {
        lemma_measure_front(encoding, t.drop_last());
        assert(t.drop_last().drop_first() =~= t.drop_first().drop_last());
    }
}

proof fn lemma_encoded_len(t: Seq<char>)
    ensures
        encode_utf8(t).len() == PositionEncoding::Utf8.measure(t),
    decreases t.len(),
{
    if t.len() > 0 {
        lemma_measure_front(PositionEncoding::Utf8, t);
        lemma_encoded_len(t.drop_first());
        let scalar = t[0] as u32;
        vstd::utf8::char_is_scalar(t[0]);
        assert(vstd::utf8::encode_scalar(scalar).len() == PositionEncoding::Utf8.width(t[0]));
    }
}

/// How many characters of a text lie outside the basic plane.
pub open spec fn astral(t: Seq<char>) -> nat {
    t.filter(|c: char| c as u32 >= 0x1_0000).len()
}

proof fn lemma_measures(t: Seq<char>)
    ensures
        PositionEncoding::Utf16.measure(t) == t.len() + astral(t),
        PositionEncoding::Utf32.measure(t) == t.len(),
    decreases t.len(),
{
    reveal(Seq::filter);
    if t.len() > 0 {
        lemma_measures(t.drop_last());
    }
}

/// A column of the editor is the length of what stands before it: in bytes, in 16-bit units, of which
/// a character outside the basic plane takes two, or in characters.
pub proof fn law_columns_measure_the_text_before(encoding: PositionEncoding, line: Seq<char>, column: usize)
    requires
        column <= line.len(),
    ensures
        encoded_column(encoding, Some(line), column) == (match encoding {
            PositionEncoding::Utf8 => encode_utf8(line.take(column as int)).len() as int,
            PositionEncoding::Utf16 => column + astral(line.take(column as int)),
            PositionEncoding::Utf32 => column as int,
        }),
{
    let before = line.take(column as int);
    lemma_encoded_len(before);
    lemma_measures(before);
    assert(line.take(line.len() as int) =~= line);
    if is_ascii_text(line) {
        lemma_ascii_columns(encoding, before);
    }
}

proof fn lemma_ascii_columns(encoding: PositionEncoding, t: Seq<char>)
    requires
        is_ascii_text(t),
    ensures
        encoding.measure(t) == t.len(),
    decreases t.len(),
{
    if t.len() > 0 {
        assert(is_ascii_text(t.drop_last()));
        lemma_ascii_columns(encoding, t.drop_last());
    }
}

/// The compiler counts lines and columns from one and the editor from zero: a span on lines of plain
/// letters has each of its four numbers one less.
pub proof fn law_positions_count_from_zero(encoding: PositionEncoding, span: DiagnosticSpan, line: usize, column: usize)
    requires
        span.line_start <= line <= u32::MAX,
        0 < line,
        0 < column <= u32::MAX,
        line - span.line_start < span.text@.len() ==> is_ascii_text(span.text@[line - span.line_start]@),
    ensures
        span_position(encoding, span, line, before(column)).line == line - 1,
        span_position(encoding, span, line, before(column)).character == column - 1,
{
}

} // verus!
