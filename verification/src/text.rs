//! Texts as they come from bytes: their encoding, their line breaks, and numbers in words.
use crate::ordered::chars_of;
use crate::paths::LineEndings;
use vstd::prelude::*;
use vstd::utf8::{decode_utf8, valid_utf8};

verus! {

/// `String::push` puts a character behind the text.
pub assume_specification[ String::push ](text: &mut String, c: char)
    ensures
        final(text)@ == old(text)@.push(c),
;

/// `String::from_utf8` gives the text that the bytes encode, and only where they encode one.
#[verifier::external_body]
fn from_utf8(bytes: Vec<u8>) -> (r: Option<String>)
    ensures
        r is Some <==> valid_utf8(bytes@),
        r matches Some(text) ==> text@ == decode_utf8(bytes@),
{
    String::from_utf8(bytes).ok()
}

/// A text without carriage returns before its line feeds.
pub open spec fn unix_text(t: Seq<char>) -> Seq<char>
    decreases t.len(),
{
    if t.len() == 0 {
        Seq::empty()
    } else if t.len() >= 2 && t.last() == '\n' && t[t.len() - 2] == '\r' {
        unix_text(t.take(t.len() - 2)).push('\n')
    } else {
        unix_text(t.drop_last()).push(t.last())
    }
}

/// Some line of the text ends in a carriage return and a line feed.
pub open spec fn has_crlf(t: Seq<char>) -> bool {
    exists|i: int| 0 <= i && i + 1 < t.len() && #[trigger] t[i] == '\r' && t[i + 1] == '\n'
}

pub open spec fn endings_of(t: Seq<char>) -> LineEndings {
    if has_crlf(t) {
        LineEndings::Dos
    } else {
        LineEndings::Unix
    }
}

/// The line endings that a text has.
pub fn line_endings_of(text: &String) -> (r: LineEndings)
    ensures
        r == endings_of(text@),
{
    let chars = chars_of(text.as_str());
    let mut i: usize = 0;
    while i < chars.len()
        invariant
            i <= chars.len(),
            chars@ == text@,
            forall|j: int| 0 <= j < i && j + 1 < text@.len() ==> !(#[trigger] text@[j] == '\r' && text@[j + 1] == '\n'),
        decreases chars.len() - i,
    {
        if i + 1 < chars.len() && chars[i] == '\r' && chars[i + 1] == '\n' {
            proof {
                assert(text@[i as int] == '\r' && text@[i + 1] == '\n');
            }
            return LineEndings::Dos;
        }
        i = i + 1;
    }
    LineEndings::Unix
}

impl LineEndings {
    /// Takes the carriage returns from the ends of lines, and tells whether there were any.
    pub fn normalize(text: &String) -> (r: (String, LineEndings))
        ensures
            r.0@ == unix_text(text@),
            r.1 == endings_of(text@),
    {
        let chars = chars_of(text.as_str());
        let n = chars.len();
        let mut r = String::new();
        let mut seen = false;
        let mut i: usize = 0;
        proof {
            assert(chars@.take(0) =~= Seq::<char>::empty());
        }
        while i < n
            invariant
                i <= n,
                n == chars@.len(),
                r@ == unix_text(chars@.take(i as int)),
                seen == has_crlf(chars@.take(i as int)),
                0 < i < n && chars@[i - 1] == '\r' ==> chars@[i as int] != '\n',
            decreases n - i,
        {
            if chars[i] == '\r' && i + 1 < n && chars[i + 1] == '\n' {
                r.push('\n');
                proof {
                    let t = chars@.take(i + 2);
                    assert(t.take(t.len() - 2) =~= chars@.take(i as int));
                    assert(t[i as int] == '\r' && t[i + 1] == '\n');
                }
                seen = true;
                i = i + 2;
            } else {
                let c = chars[i];
                r.push(c);
                proof {
                    let t = chars@.take(i + 1);
                    let before = chars@.take(i as int);
                    assert(t.drop_last() =~= before);
                    if has_crlf(before) {
                        let k = choose|k: int| 0 <= k && k + 1 < before.len() && #[trigger] before[k] == '\r' && before[k + 1] == '\n';
                        assert(t[k] == '\r' && t[k + 1] == '\n');
                    }
                    if has_crlf(t) {
                        let k = choose|k: int| 0 <= k && k + 1 < t.len() && #[trigger] t[k] == '\r' && t[k + 1] == '\n';
                        assert(before[k] == '\r' && before[k + 1] == '\n');
                    }
                }
                i = i + 1;
            }
        }
        proof {
            assert(chars@.take(n as int) =~= chars@);
        }
        (
            r,
            if seen {
                LineEndings::Dos
            } else {
                LineEndings::Unix
            },
        )
    }
}

/// The text that bytes encode, with plain line feeds, and its line endings.
pub open spec fn decoded(bytes: Seq<u8>) -> Option<(Seq<char>, LineEndings)> {
    if valid_utf8(bytes) {
        Some((unix_text(decode_utf8(bytes)), endings_of(decode_utf8(bytes))))
    } else {
        None
    }
}

pub open spec fn decoded_view(r: Option<(String, LineEndings)>) -> Option<(Seq<char>, LineEndings)> {
    match r {
        Some(text) => Some((text.0@, text.1)),
        None => None,
    }
}

/// The text that bytes encode, with plain line feeds, and its line endings.
pub fn decode(bytes: Vec<u8>) -> (r: Option<(String, LineEndings)>)
    ensures
        decoded_view(r) == decoded(bytes@),
{
    match from_utf8(bytes) {
        Some(text) => Some(LineEndings::normalize(&text)),
        None => None,
    }
}

/// The text that bytes encode, as it is.
pub fn decode_plain(bytes: Vec<u8>) -> (r: Option<String>)
    ensures
        r is Some <==> valid_utf8(bytes@),
        r matches Some(text) ==> text@ == decode_utf8(bytes@),
{
    from_utf8(bytes)
}

/// A text whose lines end in plain line feeds stays as it is.
pub proof fn law_unix_text_is_kept(t: Seq<char>)
    requires
        !has_crlf(t),
    ensures
        unix_text(t) == t,
    decreases t.len(),
{
    if t.len() > 0 {
        let front = t.drop_last();
        if has_crlf(front) {
            let k = choose|k: int| 0 <= k && k + 1 < front.len() && #[trigger] front[k] == '\r' && front[k + 1] == '\n';
            assert(t[k] == '\r' && t[k + 1] == '\n');
        }
        law_unix_text_is_kept(front);
        if t.len() >= 2 && t.last() == '\n' && t[t.len() - 2] == '\r' {
            assert(t[t.len() - 2] == '\r' && t[t.len() - 2 + 1] == '\n');
        }
        assert(front.push(t.last()) =~= t);
    } else {
        assert(t =~= Seq::empty());
    }
}

/// A carriage return and a line feed become a line feed, and what stands before them and after them
/// is not touched by it.
pub proof fn law_line_breaks_become_plain(a: Seq<char>, b: Seq<char>)
    requires
        !has_crlf(a),
    ensures
        unix_text(a + seq!['\r', '\n'] + b) == a + seq!['\n'] + unix_text(b),
    decreases b.len(),
{
    let head = a + seq!['\r', '\n'];
    let t = head + b;
    if b.len() == 0 {
        assert(t.take(t.len() - 2) =~= a);
        law_unix_text_is_kept(a);
        assert(unix_text(t) =~= a + seq!['\n'] + unix_text(b));
    } else if b.len() >= 2 && b.last() == '\n' && b[b.len() - 2] == '\r' {
        let front = b.take(b.len() - 2);
        law_line_breaks_become_plain(a, front);
        assert(t.take(t.len() - 2) =~= head + front);
        assert(unix_text(t) =~= a + seq!['\n'] + unix_text(b));
    } else {
        law_line_breaks_become_plain(a, b.drop_last());
        assert(t.drop_last() =~= head + b.drop_last());
        assert(b.len() == 1 ==> t[t.len() - 2] == '\n');
        assert(unix_text(t) =~= a + seq!['\n'] + unix_text(b));
    }
}

/// Bytes are a text exactly when they encode one. Its line endings are those of Windows exactly when
/// a carriage return stands before a line feed somewhere, and without such a place the text is what
/// the bytes encode, letter for letter.
pub proof fn law_bytes_are_read_as_they_are(bytes: Seq<u8>)
    ensures
        decoded(bytes) is Some <==> valid_utf8(bytes),
        decoded(bytes) matches Some((text, endings)) ==> {
            let whole = decode_utf8(bytes);
            let broken = exists|i: int| 0 <= i && i + 1 < whole.len() && #[trigger] whole[i] == '\r' && whole[i + 1] == '\n';
            &&& endings == LineEndings::Dos <==> broken
            &&& endings == LineEndings::Unix <==> !broken
            &&& !broken ==> text == whole
        },
{
    let whole = decode_utf8(bytes);
    if !has_crlf(whole) {
        law_unix_text_is_kept(whole);
    }
}

/// The decimal digits of a number, without leading zeros.
pub open spec fn digits(n: nat) -> Seq<char>
    decreases n,
{
    if n < 10 {
        seq![digit(n)]
    } else {
        digits(n / 10).push(digit(n % 10))
    }
}

pub open spec fn digit(n: nat) -> char {
    if n == 0 {
        '0'
    } else if n == 1 {
        '1'
    } else if n == 2 {
        '2'
    } else if n == 3 {
        '3'
    } else if n == 4 {
        '4'
    } else if n == 5 {
        '5'
    } else if n == 6 {
        '6'
    } else if n == 7 {
        '7'
    } else if n == 8 {
        '8'
    } else {
        '9'
    }
}

/// A whole number in decimal notation.
pub open spec fn decimal(n: int) -> Seq<char> {
    if n < 0 {
        seq!['-'] + digits((-n) as nat)
    } else {
        digits(n as nat)
    }
}

fn digit_of(n: u32) -> (r: char)
    requires
        n < 10,
    ensures
        r == digit(n as nat),
{
    match n {
        0 => '0',
        1 => '1',
        2 => '2',
        3 => '3',
        4 => '4',
        5 => '5',
        6 => '6',
        7 => '7',
        8 => '8',
        _ => '9',
    }
}

fn write_digits(text: &mut String, n: u32)
    ensures
        final(text)@ == old(text)@ + digits(n as nat),
    decreases n,
{
    if n < 10 {
        text.push(digit_of(n));
        proof {
            assert(text@ =~= old(text)@ + digits(n as nat));
        }
    } else {
        write_digits(text, n / 10);
        text.push(digit_of(n % 10));
        proof {
            assert(text@ =~= old(text)@ + digits(n as nat));
        }
    }
}

/// A whole number in decimal notation.
pub fn decimal_of(n: i32) -> (r: String)
    ensures
        r@ == decimal(n as int),
{
    let mut r = String::new();
    if n >= 0 {
        write_digits(&mut r, n as u32);
        proof {
            assert(r@ =~= decimal(n as int));
        }
    } else {
        r.push('-');
        let size: u32 = if n == i32::MIN {
            0x8000_0000
        } else {
            (-n) as u32
        };
        write_digits(&mut r, size);
        proof {
            assert(r@ =~= decimal(n as int));
        }
    }
    r
}

/// The number that decimal digits stand for.
pub open spec fn number_of(t: Seq<char>) -> int
    decreases t.len(),
{
    if t.len() == 0 {
        0
    } else {
        10 * number_of(t.drop_last()) + (t.last() as u32 - '0' as u32)
    }
}

/// The digits of a number stand for it: read from the left, each one counts ten times what follows.
/// They are digits, and the first is a zero only where it stands alone.
pub proof fn law_digits_stand_for_their_number(n: nat)
    ensures
        number_of(digits(n)) == n,
        digits(n).len() > 0,
        forall|i: int| 0 <= i < digits(n).len() ==> '0' <= #[trigger] digits(n)[i] <= '9',
        digits(n)[0] == '0' ==> n == 0,
    decreases n,
{
    reveal_with_fuel(number_of, 2);
    if n < 10 {
        assert(digits(n).drop_last() =~= Seq::<char>::empty());
    } else {
        law_digits_stand_for_their_number(n / 10);
        assert(digits(n).drop_last() =~= digits(n / 10));
        assert forall|i: int| 0 <= i < digits(n).len() implies '0' <= #[trigger] digits(n)[i] <= '9' by {
            if i < digits(n / 10).len() {
                assert(digits(n)[i] == digits(n / 10)[i]);
            }
        }
    }
}

/// Different numbers are written differently.
pub proof fn law_decimals_differ(m: int, n: int)
    requires
        m != n,
    ensures
        decimal(m) != decimal(n),
{
    let (a, b) = (if m < 0 { -m } else { m }, if n < 0 { -n } else { n });
    law_digits_stand_for_their_number(a as nat);
    law_digits_stand_for_their_number(b as nat);
    if m < 0 {
        assert(decimal(m)[0] == '-');
        assert(decimal(m).drop_first() =~= digits(a as nat));
    } else {
        assert('0' <= digits(a as nat)[0]);
    }
    if n < 0 {
        assert(decimal(n)[0] == '-');
        assert(decimal(n).drop_first() =~= digits(b as nat));
    } else {
        assert('0' <= digits(b as nat)[0]);
    }
}

} // verus!
