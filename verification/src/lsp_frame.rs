//! The frames in which messages travel between an editor and its server: a header of lines, one of
//! which tells the length of the body that follows.
use crate::ordered::chars_of;
use crate::text::decode_plain;
use vstd::prelude::*;
use vstd::utf8::{decode_utf8, valid_utf8};

verus! {

#[derive(Clone, Copy, Debug, PartialEq, Eq, Structural)]
pub enum FrameError {
    /// The input ended within a header.
    HeaderEnded,
    /// A line of the header does not end as it should.
    Malformed,
    NotText,
    MissingLength,
    BadLength,
    /// The input ended within a body.
    BodyEnded,
}

/// What to do after a line of a header was read.
#[derive(Clone, Copy, Debug, PartialEq, Eq, Structural)]
pub enum HeaderStep {
    /// Read another line.
    More,
    /// The header is complete.
    Complete,
    /// The input ended where a frame may end.
    Finished,
}

/// A header as far as it was read.
#[derive(Debug)]
pub struct FrameHeader {
    pub bytes: Vec<u8>,
}

pub open spec fn ends_line(line: Seq<u8>) -> bool {
    line.len() >= 2 && line[line.len() - 2] == 13 && line[line.len() - 1] == 10
}

/// The lines of a text and the line that is not over, after the first `n` characters.
pub open spec fn lines_to(t: Seq<char>, n: int) -> (Seq<Seq<char>>, Seq<char>)
    decreases n,
{
    if n <= 0 {
        (Seq::empty(), Seq::empty())
    } else {
        let (done, line) = lines_to(t, n - 1);
        let c = t[n - 1];
        if c == '\n' && line.len() > 0 && line.last() == '\r' {
            (done.push(line.drop_last()), Seq::empty())
        } else {
            (done, line.push(c))
        }
    }
}

/// The lines of a text, which carriage returns with line feeds part.
pub open spec fn lines(t: Seq<char>) -> Seq<Seq<char>> {
    let (done, line) = lines_to(t, t.len() as int);
    done.push(line)
}

/// The place of the first colon with a space behind it, from `from` on.
pub open spec fn separator(line: Seq<char>, from: int) -> Option<int>
    decreases line.len() - from,
{
    if from + 1 >= line.len() {
        None
    } else if line[from] == ':' && line[from + 1] == ' ' {
        Some(from)
    } else {
        separator(line, from + 1)
    }
}

pub open spec fn lower(c: char) -> char {
    if 'A' <= c && c <= 'Z' {
        ((c as u8) + 32) as u8 as char
    } else {
        c
    }
}

pub open spec fn same_letters(a: Seq<char>, b: Seq<char>) -> bool {
    a.len() == b.len() && forall|i: int| 0 <= i < a.len() ==> lower(#[trigger] a[i]) == lower(b[i])
}

/// The value of a line that gives the length of the body.
pub open spec fn length_field(line: Seq<char>) -> Option<Seq<char>> {
    match separator(line, 0) {
        Some(at) => if same_letters(line.take(at), "Content-Length"@) {
            Some(line.skip(at + 2))
        } else {
            None
        },
        None => None,
    }
}

/// The last such value among the first `n` lines.
pub open spec fn last_length(lines: Seq<Seq<char>>, n: int) -> Option<Seq<char>>
    decreases n,
{
    if n <= 0 {
        None
    } else if length_field(lines[n - 1]) is Some {
        length_field(lines[n - 1])
    } else {
        last_length(lines, n - 1)
    }
}

pub open spec fn is_digit(c: char) -> bool {
    '0' <= c && c <= '9'
}

/// The value of decimal digits.
pub open spec fn number(t: Seq<char>) -> nat
    decreases t.len(),
{
    if t.len() == 0 {
        0
    } else {
        number(t.drop_last()) * 10 + (t.last() as u32 - '0' as u32) as nat
    }
}

pub open spec fn all_digits(t: Seq<char>) -> bool {
    forall|i: int| 0 <= i < t.len() ==> is_digit(#[trigger] t[i])
}

/// A text without the plus sign that it may start with.
pub open spec fn unsigned(t: Seq<char>) -> Seq<char> {
    if t.len() > 0 && t[0] == '+' {
        t.skip(1)
    } else {
        t
    }
}

/// A whole number in decimal notation, with or without a plus sign, that fits.
pub open spec fn whole_number(t: Seq<char>) -> Option<u64> {
    if unsigned(t).len() > 0 && all_digits(unsigned(t)) && number(unsigned(t)) <= u64::MAX {
        Some(number(unsigned(t)) as u64)
    } else {
        None
    }
}

/// The length of the body that a header announces.
pub open spec fn announced(header: Seq<u8>) -> Result<u64, FrameError> {
    if !valid_utf8(header) {
        Err(FrameError::NotText)
    } else {
        let all = lines(decode_utf8(header));
        match last_length(all, all.len() as int) {
            None => Err(FrameError::MissingLength),
            Some(value) => match whole_number(value) {
                Some(length) => Ok(length),
                None => Err(FrameError::BadLength),
            },
        }
    }
}

pub fn lower_of(c: char) -> (r: char)
    ensures
        r == lower(c),
{
    if 'A' <= c && c <= 'Z' {
        ((c as u8) + 32) as char
    } else {
        c
    }
}

fn letters_match(line: &Vec<char>, at: usize, name: &Vec<char>) -> (r: bool)
    requires
        at <= line.len(),
    ensures
        r == same_letters(line@.take(at as int), name@),
{
    if at != name.len() {
        return false;
    }
    let mut i: usize = 0;
    while i < at
        invariant
            i <= at,
            at <= line.len(),
            at == name.len(),
            forall|j: int| 0 <= j < i ==> lower(#[trigger] line@.take(at as int)[j]) == lower(name@[j]),
        decreases at - i,
    {
        proof {
            assert(line@.take(at as int)[i as int] == line@[i as int]);
        }
        if lower_of(line[i]) != lower_of(name[i]) {
            return false;
        }
        i = i + 1;
    }
    true
}

fn find_separator(line: &Vec<char>) -> (r: Option<usize>)
    ensures
        r is Some <==> separator(line@, 0) is Some,
        r matches Some(at) ==> separator(line@, 0) == Some(at as int) && at + 2 <= line.len(),
{
    let mut i: usize = 0;
    while line.len() - i > 1
        invariant
            i <= line.len(),
            separator(line@, 0) == separator(line@, i as int),
        decreases line.len() - i,
    {
        if line[i] == ':' && line[i + 1] == ' ' {
            return Some(i);
        }
        i = i + 1;
    }
    None
}

fn rest_of(line: &Vec<char>, from: usize) -> (r: Vec<char>)
    requires
        from <= line.len(),
    ensures
        r@ == line@.skip(from as int),
{
    let mut r: Vec<char> = Vec::new();
    let mut i: usize = from;
    while i < line.len()
        invariant
            from <= i <= line.len(),
            r@ == line@.subrange(from as int, i as int),
        decreases line.len() - i,
    {
        r.push(line[i]);
        i = i + 1;
        proof {
            assert(r@ =~= line@.subrange(from as int, i as int));
        }
    }
    proof {
        assert(r@ =~= line@.skip(from as int));
    }
    r
}

pub open spec fn chars_view(r: Option<Vec<char>>) -> Option<Seq<char>> {
    match r {
        Some(text) => Some(text@),
        None => None,
    }
}

fn length_field_of(line: &Vec<char>) -> (r: Option<Vec<char>>)
    ensures
        chars_view(r) == length_field(line@),
{
    match find_separator(line) {
        Some(at) => {
            let name = chars_of("Content-Length");
            if letters_match(line, at, &name) {
                Some(rest_of(line, at + 2))
            } else {
                None
            }
        },
        None => None,
    }
}

proof fn lemma_number_grows(t: Seq<char>, n: int)
    requires
        0 <= n <= t.len(),
    ensures
        number(t.take(n)) <= number(t),
    decreases t.len() - n,
{
    if n < t.len() {
        lemma_number_grows(t, n + 1);
        assert(t.take(n + 1).drop_last() =~= t.take(n));
        assert(number(t.take(n + 1)) >= number(t.take(n)) * 10);
    } else {
        assert(t.take(n) =~= t);
    }
}

/// Reads a whole number, if there is one that fits.
pub fn parse_whole_number(t: &Vec<char>) -> (r: Option<u64>)
    ensures
        r == whole_number(t@),
{
    let from: usize = if t.len() > 0 && t[0] == '+' {
        1
    } else {
        0
    };
    let ghost digits = t@.skip(from as int);
    proof {
        assert(digits =~= unsigned(t@));
    }
    if from == t.len() {
        return None;
    }
    let mut value: u64 = 0;
    let mut i: usize = from;
    proof {
        assert(digits.take(0) =~= Seq::<char>::empty());
    }
    while i < t.len()
        invariant
            from <= i <= t.len(),
            from < t.len(),
            digits == t@.skip(from as int),
            digits == unsigned(t@),
            value == number(digits.take(i - from)),
            forall|j: int| 0 <= j < i - from ==> is_digit(#[trigger] digits[j]),
        decreases t.len() - i,
    {
        let c = t[i];
        proof {
            assert(digits[i - from] == c);
            assert(digits.take(i - from + 1).drop_last() =~= digits.take(i - from));
            assert(digits.take(i - from + 1).last() == c);
        }
        if !('0' <= c && c <= '9') {
            proof {
                assert(!is_digit(digits[i - from]));
            }
            return None;
        }
        let digit: u64 = (c as u32 - '0' as u32) as u64;
        proof {
            assert(number(digits.take(i - from + 1)) == value * 10 + digit);
            lemma_number_grows(digits, i - from + 1);
        }
        if value > (u64::MAX - digit) / 10 {
            proof {
                assert(value * 10 + digit > u64::MAX);
            }
            return None;
        }
        value = value * 10 + digit;
        i = i + 1;
    }
    proof {
        assert(digits.take(digits.len() as int) =~= digits);
    }
    Some(value)
}

fn last_length_of(t: &Vec<char>) -> (r: Option<Vec<char>>)
    ensures
        chars_view(r) == last_length(lines(t@), lines(t@).len() as int),
{
    let mut found: Option<Vec<char>> = None;
    let mut line: Vec<char> = Vec::new();
    let ghost mut done: Seq<Seq<char>> = Seq::empty();
    let mut i: usize = 0;
    while i < t.len()
        invariant
            i <= t.len(),
            lines_to(t@, i as int) == (done, line@),
            chars_view(found) == last_length(done, done.len() as int),
        decreases t.len() - i,
    {
        let c = t[i];
        let ghost before = line@;
        if c == '\n' && line.len() > 0 && line[line.len() - 1] == '\r' {
            line.pop();
            let ghost old_done = done;
            proof {
                assert(line@ =~= before.drop_last());
                done = done.push(line@);
                lemma_last_length(old_done, line@);
            }
            let field = length_field_of(&line);
            if field.is_some() {
                found = field;
            }
            line = Vec::new();
            proof {
                assert(line@ =~= Seq::<char>::empty());
            }
        } else {
            line.push(c);
        }
        i = i + 1;
    }
    proof {
        lemma_last_length(done, line@);
    }
    let field = length_field_of(&line);
    if field.is_some() {
        field
    } else {
        found
    }
}

proof fn lemma_last_length(done: Seq<Seq<char>>, line: Seq<char>)
    ensures
        last_length(done.push(line), done.len() as int + 1) == (if length_field(line) is Some {
            length_field(line)
        } else {
            last_length(done, done.len() as int)
        }),
{
    lemma_prefix_length(done, line, done.len() as int);
}

proof fn lemma_prefix_length(done: Seq<Seq<char>>, line: Seq<char>, n: int)
    requires
        n <= done.len(),
    ensures
        last_length(done.push(line), n) == last_length(done, n),
    decreases n,
{
    if n > 0 {
        lemma_prefix_length(done, line, n - 1);
        assert(done.push(line)[n - 1] == done[n - 1]);
    }
}

impl FrameHeader {
    pub fn new() -> (r: Self)
        ensures
            r.bytes@.len() == 0,
    {
        FrameHeader { bytes: Vec::new() }
    }

    /// Takes what was read up to the end of a line. Nothing read is the end of the input.
    pub fn push_line(&mut self, line: &Vec<u8>) -> (r: Result<HeaderStep, FrameError>)
        ensures
            final(self).bytes@ == old(self).bytes@ + line@,
            r == (if line@.len() == 0 {
                if old(self).bytes@.len() == 0 {
                    Ok(HeaderStep::Finished)
                } else {
                    Err(FrameError::HeaderEnded)
                }
            } else if !ends_line(line@) {
                Err(FrameError::Malformed)
            } else if line@.len() == 2 {
                Ok(HeaderStep::Complete)
            } else {
                Ok(HeaderStep::More)
            }),
    {
        let n = line.len();
        let empty = self.bytes.len() == 0;
        let mut i: usize = 0;
        proof {
            assert(line@.take(0) =~= Seq::<u8>::empty());
            assert(self.bytes@ =~= old(self).bytes@ + line@.take(0));
        }
        while i < n
            invariant
                i <= n,
                n == line@.len(),
                self.bytes@ == old(self).bytes@ + line@.take(i as int),
            decreases n - i,
        {
            self.bytes.push(line[i]);
            i = i + 1;
            proof {
                assert(line@.take(i as int) =~= line@.take(i - 1).push(line@[i - 1]));
                assert(self.bytes@ =~= old(self).bytes@ + line@.take(i as int));
            }
        }
        proof {
            assert(line@.take(n as int) =~= line@);
        }
        if n == 0 {
            if empty {
                return Ok(HeaderStep::Finished);
            }
            return Err(FrameError::HeaderEnded);
        }
        if n < 2 || line[n - 2] != 13 || line[n - 1] != 10 {
            return Err(FrameError::Malformed);
        }
        if n == 2 {
            Ok(HeaderStep::Complete)
        } else {
            Ok(HeaderStep::More)
        }
    }

    /// The length of the body that the header announces: the last one, if there are several.
    pub fn content_length(self) -> (r: Result<u64, FrameError>)
        ensures
            r == announced(self.bytes@),
    {
        match decode_plain(self.bytes) {
            None => Err(FrameError::NotText),
            Some(text) => {
                let chars = chars_of(text.as_str());
                match last_length_of(&chars) {
                    None => Err(FrameError::MissingLength),
                    Some(value) => match parse_whole_number(&value) {
                        Some(length) => Ok(length),
                        None => Err(FrameError::BadLength),
                    },
                }
            },
        }
    }
}

/// Whether a body was read whole.
pub fn body_copied(content_length: u64, copied: u64) -> (r: Result<(), FrameError>)
    ensures
        r == (if copied == content_length {
            Ok::<(), FrameError>(())
        } else {
            Err(FrameError::BodyEnded)
        }),
{
    if copied == content_length {
        Ok(())
    } else {
        Err(FrameError::BodyEnded)
    }
}

/// How much of a chunk from the server goes on to the editor, and whether the session is over: a
/// chunk that ends in the marker is the last one, and the marker does not go on.
pub fn relay(chunk: &Vec<u8>, marker: u8) -> (r: (usize, bool))
    requires
        chunk@.len() > 0,
    ensures
        r.1 == (chunk@.last() == marker),
        r.0 == chunk@.len() - (if r.1 { 1int } else { 0 }),
{
    let n = chunk.len();
    let finished = chunk[n - 1] == marker;
    if finished {
        (n - 1, true)
    } else {
        (n, false)
    }
}

/// Lines with a carriage return and a line feed between each two.
pub open spec fn with_breaks(lines: Seq<Seq<char>>) -> Seq<char>
    decreases lines.len(),
{
    if lines.len() == 0 {
        Seq::empty()
    } else if lines.len() == 1 {
        lines[0]
    } else {
        with_breaks(lines.drop_last()) + seq!['\r', '\n'] + lines.last()
    }
}

/// The lines of a text, put together again, are the text, and no line has a line break within.
pub proof fn law_lines_make_up_the_text(t: Seq<char>)
    ensures
        with_breaks(lines(t)) == t,
        forall|i: int, k: int|
            0 <= i < lines(t).len() && 0 <= k < lines(t)[i].len() - 1 && #[trigger] lines(t)[i][k] == '\r' ==> lines(t)[i][k + 1] != '\n',
{
    lemma_lines_to(t, t.len() as int);
    assert(t.take(t.len() as int) =~= t);
}

spec fn unbroken(line: Seq<char>) -> bool {
    forall|k: int| 0 <= k < line.len() - 1 && #[trigger] line[k] == '\r' ==> line[k + 1] != '\n'
}

proof fn lemma_with_breaks(done: Seq<Seq<char>>, line: Seq<char>)
    ensures
        done.len() == 0 ==> with_breaks(done.push(line)) == line,
        done.len() > 0 ==> with_breaks(done.push(line)) == with_breaks(done) + seq!['\r', '\n'] + line,
{
    assert(done.push(line).drop_last() =~= done);
}

proof fn lemma_lines_to(t: Seq<char>, n: int)
    requires
        0 <= n <= t.len(),
    ensures
        ({
            let (done, line) = lines_to(t, n);
            &&& with_breaks(done.push(line)) == t.take(n)
            &&& unbroken(line)
            &&& forall|i: int| 0 <= i < done.len() ==> unbroken(#[trigger] done[i])
        }),
    decreases n,
{
    if n <= 0 {
        lemma_with_breaks(Seq::empty(), Seq::empty());
        assert(t.take(n) =~= Seq::<char>::empty());
    } else {
        lemma_lines_to(t, n - 1);
        let (done, line) = lines_to(t, n - 1);
        let c = t[n - 1];
        lemma_with_breaks(done, line);
        assert(t.take(n) =~= t.take(n - 1).push(c));
        if c == '\n' && line.len() > 0 && line.last() == '\r' {
            let front = line.drop_last();
            lemma_with_breaks(done, front);
            lemma_with_breaks(done.push(front), Seq::empty());
            assert(front.push('\r') =~= line);
            assert(with_breaks(done.push(front).push(Seq::empty())) =~= with_breaks(done.push(line)).push('\n'));
        } else {
            lemma_with_breaks(done, line.push(c));
            assert(with_breaks(done.push(line.push(c))) =~= with_breaks(done.push(line)).push(c));
        }
    }
}

/// The name of a field ends at the first colon with a space behind it. A line without is no field.
pub proof fn law_first_separator_ends_the_name(line: Seq<char>)
    ensures
        match separator(line, 0) {
            None => forall|k: int| 0 <= k < line.len() - 1 && #[trigger] line[k] == ':' ==> line[k + 1] != ' ',
            Some(at) => 0 <= at && at + 1 < line.len() && line[at] == ':' && line[at + 1] == ' ' && forall|k: int|
                0 <= k < at && #[trigger] line[k] == ':' ==> line[k + 1] != ' ',
        },
{
    lemma_separator(line, 0);
}

proof fn lemma_separator(line: Seq<char>, from: int)
    requires
        0 <= from,
    ensures
        match separator(line, from) {
            None => forall|k: int| from <= k < line.len() - 1 && #[trigger] line[k] == ':' ==> line[k + 1] != ' ',
            Some(at) => from <= at && at + 1 < line.len() && line[at] == ':' && line[at + 1] == ' ' && forall|k: int|
                from <= k < at && #[trigger] line[k] == ':' ==> line[k + 1] != ' ',
        },
    decreases line.len() - from,
{
    if from + 1 < line.len() && !(line[from] == ':' && line[from + 1] == ' ') {
        lemma_separator(line, from + 1);
    }
}

/// One letter, whether capital or small.
pub open spec fn one_letter(a: char, b: char) -> bool {
    ||| a == b
    ||| 'A' <= a && a <= 'Z' && b as int == a as int + 32
    ||| 'A' <= b && b <= 'Z' && a as int == b as int + 32
}

/// A line gives the length of the body if its name is that of the field, in capital or small
/// letters. What stands behind the colon and the space is the value.
pub proof fn law_length_field_goes_by_its_name(line: Seq<char>, value: Seq<char>)
    ensures
        length_field(line) == Some(value) <==> {
            &&& line.len() == 16 + value.len()
            &&& forall|i: int| 0 <= i < 14 ==> one_letter(#[trigger] line[i], "Content-Length"@[i])
            &&& line[14] == ':'
            &&& line[15] == ' '
            &&& forall|i: int| 0 <= i < value.len() ==> #[trigger] value[i] == line[i + 16]
        },
{
    reveal_strlit("Content-Length");
    let name = "Content-Length"@;
    assert(name.len() == 14);
    lemma_separator(line, 0);
    assert forall|a: char, b: char| lower(a) == lower(b) <==> #[trigger] one_letter(a, b) by {
        lemma_lower(a);
        lemma_lower(b);
    }
    if length_field(line) == Some(value) {
        let at = separator(line, 0)->0;
        assert(line.take(at).len() == at);
        assert forall|i: int| 0 <= i < 14 implies one_letter(#[trigger] line[i], name[i]) by {
            assert(line.take(at)[i] == line[i]);
        }
        assert forall|i: int| 0 <= i < value.len() implies #[trigger] value[i] == line[i + 16] by {}
    }
    if line.len() == 16 + value.len() && (forall|i: int| 0 <= i < 14 ==> one_letter(#[trigger] line[i], name[i])) && line[14] == ':'
        && line[15] == ' ' && (forall|i: int| 0 <= i < value.len() ==> #[trigger] value[i] == line[i + 16]) {
        assert forall|k: int| 0 <= k < 14 implies #[trigger] line[k] != ':' by {
            assert(one_letter(line[k], name[k]));
        }
        let found = separator(line, 0);
        assert(found == Some(14int)) by {
            if found is None {
                assert(line[14] == ':');
            } else {
                let at = found->0;
                assert(at < 14 ==> line[at] != ':');
            }
        }
        assert(same_letters(line.take(14), name)) by {
            assert forall|i: int| 0 <= i < 14 implies lower(#[trigger] line.take(14)[i]) == lower(name[i]) by {
                assert(one_letter(line[i], name[i]));
            }
        }
        assert(line.skip(16) =~= value);
    }
}

proof fn lemma_lower(c: char)
    ensures
        'A' <= c && c <= 'Z' ==> lower(c) as int == c as int + 32,
        !('A' <= c && c <= 'Z') ==> lower(c) == c,
{
}

/// Of several lines that give the length the last counts.
pub proof fn law_last_length_counts(lines: Seq<Seq<char>>, n: int)
    requires
        0 <= n <= lines.len(),
    ensures
        match last_length(lines, n) {
            None => forall|i: int| 0 <= i < n ==> length_field(#[trigger] lines[i]) is None,
            Some(value) => exists|i: int|
                0 <= i < n && length_field(#[trigger] lines[i]) == Some(value) && forall|j: int|
                    i < j < n ==> length_field(#[trigger] lines[j]) is None,
        },
    decreases n,
{
    if n > 0 {
        if length_field(lines[n - 1]) is Some {
            assert(length_field(lines[n - 1]) == last_length(lines, n));
        } else {
            law_last_length_counts(lines, n - 1);
        }
    }
}

/// Decimal digits are read one by one: each further one counts ten times what stands before it. What
/// does not fit is no number.
pub proof fn law_digits_are_read_in_turn(t: Seq<char>, c: char)
    requires
        '0' <= c && c <= '9',
    ensures
        whole_number(seq![c]) == Some((c as u32 - '0' as u32) as u64),
        whole_number(t) matches Some(n) ==> whole_number(t.push(c)) == (if 10 * n + (c as u32 - '0' as u32) <= u64::MAX {
            Some((10 * n + (c as u32 - '0' as u32)) as u64)
        } else {
            None
        }),
        t.len() > 1 && whole_number(t) is None ==> whole_number(t.push(c)) is None,
{
    let one = seq![c];
    reveal_with_fuel(number, 2);
    assert(unsigned(one) == one);
    assert(one.drop_last() =~= Seq::<char>::empty());
    assert(number(one) == (c as u32 - '0' as u32) as nat);
    let u = unsigned(t);
    let longer = t.push(c);
    if t.len() > 0 {
        assert(longer[0] == t[0]);
        assert(unsigned(longer) =~= u.push(c));
        assert(u.push(c).drop_last() =~= u);
        assert(number(u.push(c)) == number(u) * 10 + (c as u32 - '0' as u32) as nat);
        assert(all_digits(u.push(c)) <==> all_digits(u)) by {
            if all_digits(u) {
                assert forall|i: int| 0 <= i < u.push(c).len() implies is_digit(#[trigger] u.push(c)[i]) by {
                    if i < u.len() {
                        assert(is_digit(u[i]));
                    }
                }
            }
            if all_digits(u.push(c)) {
                assert forall|i: int| 0 <= i < u.len() implies is_digit(#[trigger] u[i]) by {
                    assert(is_digit(u.push(c)[i]));
                }
            }
        }
    }
}

/// A number may have a plus sign before it. Nothing, a sign alone, and what has anything but digits
/// behind the sign are no numbers.
pub proof fn law_only_digits_are_numbers(t: Seq<char>, i: int)
    requires
        0 <= i < t.len(),
    ensures
        whole_number(Seq::empty()) is None,
        whole_number(seq!['+']) is None,
        t[0] != '+' ==> whole_number(seq!['+'] + t) == whole_number(t),
        !('0' <= t[i] && t[i] <= '9') && (i > 0 || t[0] != '+') ==> whole_number(t) is None,
{
    let signed = seq!['+'] + t;
    assert(unsigned(signed) =~= t);
    assert(unsigned(seq!['+']).len() == 0);
    assert(t[0] != '+' ==> unsigned(t) == t);
    if !('0' <= t[i] && t[i] <= '9') && (i > 0 || t[0] != '+') {
        if t[0] == '+' {
            assert(unsigned(t)[i - 1] == t[i]);
        } else {
            assert(unsigned(t)[i] == t[i]);
        }
    }
}

/// The length that a header announces is read from the last line that gives one. A header that is no
/// text, gives none, or gives something else than a number announces none.
pub proof fn law_header_announces_the_last_length(header: Seq<u8>, i: int)
    requires
        valid_utf8(header),
        0 <= i < lines(decode_utf8(header)).len(),
        forall|j: int| i < j < lines(decode_utf8(header)).len() ==> length_field(#[trigger] lines(decode_utf8(header))[j]) is None,
    ensures
        length_field(lines(decode_utf8(header))[i]) matches Some(value) ==> match whole_number(value) {
            Some(length) => announced(header) == Ok::<u64, FrameError>(length),
            None => announced(header) == Err::<u64, FrameError>(FrameError::BadLength),
        },
        i == 0 && length_field(lines(decode_utf8(header))[0]) is None ==> announced(header) == Err::<u64, FrameError>(
            FrameError::MissingLength,
        ),
{
    let all = lines(decode_utf8(header));
    law_last_length_counts(all, all.len() as int);
    if let Some(value) = last_length(all, all.len() as int) {
        let k = choose|k: int|
            0 <= k < all.len() && length_field(#[trigger] all[k]) == Some(value) && forall|j: int|
                k < j < all.len() ==> length_field(#[trigger] all[j]) is None;
        assert(k <= i);
        assert(k < i ==> length_field(all[i]) is None);
    }
}

/// Bytes that are no text announce nothing.
pub proof fn law_header_is_text(header: Seq<u8>)
    ensures
        announced(header) == Err::<u64, FrameError>(FrameError::NotText) <==> !valid_utf8(header),
{
}

} // verus!
