//! Deserializing AT response strings: the byte-level reader that walks a
//! response, and the hex-string values carried by some responses.
//!
//! The reader owns its input bytes and a cursor.  Each operation states
//! exactly where the cursor lands and what is returned.

use vstd::prelude::*;

verus! {

/// Everything that can go wrong while reading an AT response string.
#[derive(Debug, PartialEq, Eq, Structural)]
pub enum Error {
    /// Ran out of input while reading an object.
    EofWhileParsingObject,
    /// Ran out of input while reading a string.
    EofWhileParsingString,
    /// Ran out of input while reading a number.
    EofWhileParsingNumber,
    /// Ran out of input while reading a value.
    EofWhileParsingValue,
    /// Expected `true` or `false`.
    ExpectedSomeIdent,
    /// Expected a character that starts a value.
    ExpectedSomeValue,
    /// A number was malformed or too large.
    InvalidNumber,
    /// A value of an unexpected shape.
    InvalidType,
    /// A byte sequence that is not valid text.
    InvalidUnicodeCodePoint,
    /// Non-whitespace input after the value.
    TrailingCharacters,
    /// A comma after the last value.
    TrailingComma,
    /// An error whose message was discarded.
    CustomError,
}

/// Whether `c` is one of the whitespace bytes the reader skips: space,
/// tab, line feed or carriage return.
pub open spec fn is_ws(c: u8) -> bool {
    c == 32 || c == 9 || c == 10 || c == 13
}

/// The first index at or after `i` holding a non-whitespace byte, or
/// `s.len()` if there is none.
pub open spec fn first_non_ws(s: Seq<u8>, i: int) -> int
    decreases s.len() - i,
{
    if i < 0 || i >= s.len() {
        s.len() as int
    } else if !is_ws(s[i]) {
        i
    } else {
        first_non_ws(s, i + 1)
    }
}

/// The first index at or after `i` holding the byte `b`, or `s.len()` if
/// there is none.
pub open spec fn first_byte_from(s: Seq<u8>, b: u8, i: int) -> int
    decreases s.len() - i,
{
    if i < 0 || i >= s.len() {
        s.len() as int
    } else if s[i] == b {
        i
    } else {
        first_byte_from(s, b, i + 1)
    }
}

/// How many leading bytes of `ident` the input matches, starting at `i`:
/// the length of the longest common prefix of `s[i..]` and `ident`.
pub open spec fn match_len(s: Seq<u8>, i: int, ident: Seq<u8>, k: int) -> int
    decreases ident.len() - k,
{
    if k < 0 || k >= ident.len() {
        ident.len() as int
    } else if i + k < s.len() && s[i + k] == ident[k] {
        match_len(s, i, ident, k + 1)
    } else {
        k
    }
}

/// Whether `c`, read as its one-byte character, is a letter or digit:
/// the ASCII letters and digits, and the Latin-1 letters, ordinal signs,
/// superscript digits and vulgar fractions.
pub open spec fn is_alnum(c: u8) -> bool {
    (48 <= c <= 57) || (65 <= c <= 90) || (97 <= c <= 122) || c == 170 || c == 178 || c == 179
        || c == 181 || c == 185 || c == 186 || c == 188 || c == 189 || c == 190 || (192 <= c
        <= 214) || (216 <= c <= 246) || (248 <= c <= 255)
}

/// Whether `c`, read as its one-byte character, is whitespace: the ASCII
/// whitespace bytes, next line and no-break space.  Wider than [`is_ws`],
/// the reader's skip set, which stays the four bytes above.
pub open spec fn is_span_ws(c: u8) -> bool {
    c == 32 || c == 9 || c == 10 || c == 11 || c == 12 || c == 13 || c == 133 || c == 160
}

/// The reader over an AT response string.
pub struct Deserializer {
    bytes: Vec<u8>,
    index: usize,
}

impl Deserializer {
    /// The whole input.
    pub closed spec fn input(&self) -> Seq<u8> {
        self.bytes@
    }

    /// The cursor position.
    pub closed spec fn at(&self) -> int {
        self.index as int
    }

    /// The cursor never leaves the input.
    pub closed spec fn wf(&self) -> bool {
        self.index <= self.bytes@.len()
    }

    /// A reader at the start of the given input.
    pub fn new(bytes: Vec<u8>) -> (d: Deserializer)
        ensures
            d.wf(),
            d.input() == bytes@,
            d.at() == 0,
    {
        Deserializer { bytes, index: 0 }
    }

    /// The byte under the cursor, without moving.
    pub fn peek(&self) -> (r: Option<u8>)
        requires
            self.wf(),
        ensures
            self.at() < self.input().len() ==> r == Some(self.input()[self.at()]),
            self.at() >= self.input().len() ==> r is None,
    {
        if self.index < self.bytes.len() {
            Some(self.bytes[self.index])
        } else {
            None
        }
    }

    /// Step over the byte under the cursor.
    pub fn eat_char(&mut self)
        requires
            old(self).wf(),
            old(self).at() < old(self).input().len(),
        ensures
            final(self).wf(),
            final(self).input() == old(self).input(),
            final(self).at() == old(self).at() + 1,
    {
        let n = self.bytes.len();
        assert(self.index < n);
        self.index = self.index + 1;
    }

    /// The byte under the cursor, stepping over it when there is one.
    pub fn next_char(&mut self) -> (r: Option<u8>)
        requires
            old(self).wf(),
        ensures
            final(self).wf(),
            final(self).input() == old(self).input(),
            old(self).at() < old(self).input().len() ==> r == Some(
                old(self).input()[old(self).at()],
            ) && final(self).at() == old(self).at() + 1,
            old(self).at() >= old(self).input().len() ==> r is None && final(self).at() == old(
                self,
            ).at(),
    {
        if self.index < self.bytes.len() {
            let c = self.bytes[self.index];
            self.index = self.index + 1;
            Some(c)
        } else {
            None
        }
    }

    /// Skip whitespace and peek at what follows.
    pub fn parse_whitespace(&mut self) -> (r: Option<u8>)
        requires
            old(self).wf(),
        ensures
            final(self).wf(),
            final(self).input() == old(self).input(),
            final(self).at() == first_non_ws(old(self).input(), old(self).at()),
            final(self).at() < final(self).input().len() ==> r == Some(
                final(self).input()[final(self).at()],
            ),
            final(self).at() >= final(self).input().len() ==> r is None,
    {
        while self.index < self.bytes.len() && is_ws_byte(self.bytes[self.index])
            invariant
                self.wf(),
                self.input() == old(self).input(),
                old(self).at() <= self.at(),
                first_non_ws(old(self).input(), old(self).at()) == first_non_ws(
                    self.input(),
                    self.at(),
                ),
            decreases self.bytes@.len() - self.index,
        {
            self.index = self.index + 1;
        }
        self.peek()
    }

    /// Check that only whitespace is left.
    pub fn end(&mut self) -> (r: Result<(), Error>)
        requires
            old(self).wf(),
        ensures
            final(self).wf(),
            final(self).input() == old(self).input(),
            final(self).at() == first_non_ws(old(self).input(), old(self).at()),
            r is Ok <==> first_non_ws(old(self).input(), old(self).at()) == old(
                self,
            ).input().len(),
            r is Err ==> r == Err::<(), Error>(Error::TrailingCharacters),
    {
        match self.parse_whitespace() {
            Some(_) => Err(Error::TrailingCharacters),
            None => Ok(()),
        }
    }

    /// Require the literal `ident` at the cursor: on a full match the
    /// cursor passes it; on a mismatch the read stops one byte past the
    /// longest agreeing prefix.
    pub fn parse_ident(&mut self, ident: &[u8]) -> (r: Result<(), Error>)
        requires
            old(self).wf(),
            old(self).at() + ident@.len() + 1 < usize::MAX,
        ensures
            final(self).wf(),
            final(self).input() == old(self).input(),
            ({
                let m = match_len(old(self).input(), old(self).at(), ident@, 0);
                if m == ident@.len() {
                    r is Ok && final(self).at() == old(self).at() + m
                } else {
                    r == Err::<(), Error>(Error::ExpectedSomeIdent) && final(self).at() == (if old(
                        self,
                    ).at() + m < old(self).input().len() {
                        old(self).at() + m + 1
                    } else {
                        old(self).input().len() as int
                    })
                }
            }),
    {
        let ghost i0 = self.at();
        let mut k: usize = 0;
        while k < ident.len()
            invariant
                self.wf(),
                self.input() == old(self).input(),
                i0 == old(self).at(),
                i0 + ident@.len() + 1 < usize::MAX,
                0 <= k <= ident@.len(),
                self.at() == i0 + k,
                match_len(self.input(), i0, ident@, 0) == match_len(self.input(), i0, ident@, k as int),
            decreases ident@.len() - k,
        {
            let c = self.next_char();
            let expected = ident[k];
            match c {
                Some(got) => {
                    if got != expected {
                        proof {
                            assert(match_len(self.input(), i0, ident@, k as int) == k);
                        }
                        return Err(Error::ExpectedSomeIdent);
                    }
                },
                None => {
                    proof {
                        assert(match_len(self.input(), i0, ident@, k as int) == k);
                    }
                    return Err(Error::ExpectedSomeIdent);
                },
            }
            k = k + 1;
        }
        Ok(())
    }

    /// Read up to the closing quote: the bytes before it are the string,
    /// and the cursor passes the quote.  Without a closing quote the
    /// whole input is consumed and the read fails.
    pub fn parse_str(&mut self) -> (r: Result<Vec<u8>, Error>)
        requires
            old(self).wf(),
        ensures
            final(self).wf(),
            final(self).input() == old(self).input(),
            ({
                let q = first_byte_from(old(self).input(), 34, old(self).at());
                if q < old(self).input().len() {
                    match r {
                        Ok(v) => v@ == old(self).input().subrange(old(self).at(), q)
                            && final(self).at() == q + 1,
                        Err(_) => false,
                    }
                } else {
                    r == Err::<Vec<u8>, Error>(Error::EofWhileParsingString) && final(self).at()
                        == old(self).input().len()
                }
            }),
    {
        let ghost i0 = self.at();
        let start = self.index;
        let mut out: Vec<u8> = Vec::new();
        loop
            invariant
                self.wf(),
                self.input() == old(self).input(),
                0 <= i0 <= self.at(),
                start as int == i0,
                out@ == self.input().subrange(i0, self.at()),
                first_byte_from(self.input(), 34, i0) == first_byte_from(
                    self.input(),
                    34,
                    self.at(),
                ),
            ensures
                self.wf(),
                self.input() == old(self).input(),
                out@ == self.input().subrange(i0, self.at()),
                ({
                    let q = first_byte_from(self.input(), 34, i0);
                    (self.at() == q && q < self.input().len()) || (q == self.input().len()
                        && self.at() == q)
                }),
            decreases self.input().len() - self.at(),
        {
            if self.index >= self.bytes.len() {
                break;
            }
            let c = self.bytes[self.index];
            if c == 34 {
                break;
            }
            out.push(c);
            self.index = self.index + 1;
            proof {
                assert(out@ =~= self.input().subrange(i0, self.at()));
            }
        }
        if self.index < self.bytes.len() {
            self.eat_char();
            Ok(out)
        } else {
            Err(Error::EofWhileParsingString)
        }
    }

    /// Read a bare byte span: when every byte left, read as its
    /// one-byte character, is a letter, digit or whitespace, the span is
    /// returned whole, with the cursor at the end; the first other byte
    /// stops the read and fails it.
    pub fn parse_bytes(&mut self) -> (r: Result<Vec<u8>, Error>)
        requires
            old(self).wf(),
        ensures
            final(self).wf(),
            final(self).input() == old(self).input(),
            ({
                let stop = first_bad_from(old(self).input(), old(self).at());
                if stop == old(self).input().len() {
                    match r {
                        Ok(v) => v@ == old(self).input().subrange(
                            old(self).at(),
                            old(self).input().len() as int,
                        ) && final(self).at() == old(self).input().len(),
                        Err(_) => false,
                    }
                } else {
                    r == Err::<Vec<u8>, Error>(Error::EofWhileParsingString) && final(self).at()
                        == stop
                }
            }),
    {
        let ghost i0 = self.at();
        let mut out: Vec<u8> = Vec::new();
        loop
            invariant
                self.wf(),
                self.input() == old(self).input(),
                0 <= i0 <= self.at(),
                out@ == self.input().subrange(i0, self.at()),
                first_bad_from(self.input(), i0) == first_bad_from(self.input(), self.at()),
            ensures
                self.wf(),
                self.input() == old(self).input(),
                out@ == self.input().subrange(i0, self.at()),
                self.at() == first_bad_from(self.input(), i0) || (self.at() == self.input().len()
                    && first_bad_from(self.input(), i0) == self.input().len()),
            decreases self.input().len() - self.at(),
        {
            if self.index >= self.bytes.len() {
                break;
            }
            let c = self.bytes[self.index];
            if !(is_alnum_byte(c) || is_span_ws_byte(c)) {
                break;
            }
            out.push(c);
            self.index = self.index + 1;
            proof {
                assert(out@ =~= self.input().subrange(i0, self.at()));
            }
        }
        if self.index >= self.bytes.len() {
            Ok(out)
        } else {
            Err(Error::EofWhileParsingString)
        }
    }

    /// Skip a leading `+VERB:` response identifier, if one is there:
    /// after optional whitespace and a `+`, everything through the first
    /// `:` and the whitespace after it is stepped over.  Without a `:`
    /// the cursor stays on the `+`.
    pub fn parse_at(&mut self) -> (r: Result<Option<()>, Error>)
        requires
            old(self).wf(),
        ensures
            final(self).wf(),
            final(self).input() == old(self).input(),
            ({
                let s = old(self).input();
                let a = first_non_ws(s, old(self).at());
                if a < s.len() && s[a] == 43 {
                    let q = first_byte_from(s, 58, a);
                    if q < s.len() {
                        let b = first_non_ws(s, q + 1);
                        if b < s.len() {
                            r == Ok::<Option<()>, Error>(Some(())) && final(self).at() == b
                        } else {
                            r == Err::<Option<()>, Error>(Error::EofWhileParsingValue)
                                && final(self).at() == s.len()
                        }
                    } else {
                        r == Ok::<Option<()>, Error>(None) && final(self).at() == a
                    }
                } else {
                    r == Ok::<Option<()>, Error>(None) && final(self).at() == a
                }
            }),
    {
        let first = self.parse_whitespace();
        match first {
            Some(43u8) => {
                let ghost a = self.at();
                let mark = self.index;
                loop
                    invariant
                        self.wf(),
                        self.input() == old(self).input(),
                        0 <= a <= self.at(),
                        mark as int == a,
                        first_byte_from(self.input(), 58, a) == first_byte_from(
                            self.input(),
                            58,
                            self.at(),
                        ),
                    ensures
                        self.wf(),
                        self.input() == old(self).input(),
                        self.at() == first_byte_from(self.input(), 58, a) || (self.at()
                            == self.input().len() && first_byte_from(self.input(), 58, a)
                            == self.input().len()),
                    decreases self.input().len() - self.at(),
                {
                    if self.index >= self.bytes.len() {
                        break;
                    }
                    if self.bytes[self.index] == 58 {
                        break;
                    }
                    self.index = self.index + 1;
                }
                if self.index < self.bytes.len() {
                    self.eat_char();
                    let after = self.parse_whitespace();
                    match after {
                        Some(_) => Ok(Some(())),
                        None => Err(Error::EofWhileParsingValue),
                    }
                } else {
                    self.index = mark;
                    Ok(None)
                }
            },
            _ => Ok(None),
        }
    }

    /// Hand out the bytes from the cursor to the end of the input,
    /// consuming them.
    pub fn take_rest(&mut self) -> (r: Vec<u8>)
        requires
            old(self).wf(),
        ensures
            final(self).wf(),
            final(self).input() == old(self).input(),
            final(self).at() == final(self).input().len(),
            r@ == old(self).input().skip(old(self).at()),
    {
        let ghost i0 = self.at();
        let mut out: Vec<u8> = Vec::new();
        while self.index < self.bytes.len()
            invariant
                self.wf(),
                self.input() == old(self).input(),
                0 <= i0 <= self.at(),
                out@ == self.input().subrange(i0, self.at()),
            decreases self.input().len() - self.at(),
        {
            out.push(self.bytes[self.index]);
            self.index = self.index + 1;
            proof {
                assert(out@ =~= self.input().subrange(i0, self.at()));
            }
        }
        proof {
            assert(out@ =~= old(self).input().skip(i0));
        }
        out
    }
}

/// The first index at or after `i` holding a byte that, read as its
/// one-byte character, is neither a letter or digit nor whitespace, or
/// `s.len()` if there is none.
pub open spec fn first_bad_from(s: Seq<u8>, i: int) -> int
    decreases s.len() - i,
{
    if i < 0 || i >= s.len() {
        s.len() as int
    } else if is_alnum(s[i]) || is_span_ws(s[i]) {
        first_bad_from(s, i + 1)
    } else {
        i
    }
}

/// Whether `c` is a whitespace byte.
pub fn is_ws_byte(c: u8) -> (r: bool)
    ensures
        r == is_ws(c),
{
    c == 32 || c == 9 || c == 10 || c == 13
}

/// Whether `c`, read as its one-byte character, is a letter or digit.
pub fn is_alnum_byte(c: u8) -> (r: bool)
    ensures
        r == is_alnum(c),
{
    (48 <= c && c <= 57) || (65 <= c && c <= 90) || (97 <= c && c <= 122) || c == 170 || c == 178
        || c == 179 || c == 181 || c == 185 || c == 186 || c == 188 || c == 189 || c == 190 || (
    192 <= c && c <= 214) || (216 <= c && c <= 246) || c >= 248
}

/// Whether `c`, read as its one-byte character, is whitespace.
pub fn is_span_ws_byte(c: u8) -> (r: bool)
    ensures
        r == is_span_ws(c),
{
    c == 32 || (9 <= c && c <= 13) || c == 133 || c == 160
}

} // verus!

verus! {

/// Whether `c` is an ASCII decimal digit.
pub open spec fn is_digit(c: u8) -> bool {
    48 <= c <= 57
}

/// The first index at or after `i` holding a non-digit byte, or `s.len()`
/// if there is none.
pub open spec fn first_nondigit_from(s: Seq<u8>, i: int) -> int
    decreases s.len() - i,
{
    if i < 0 || i >= s.len() {
        s.len() as int
    } else if is_digit(s[i]) {
        first_nondigit_from(s, i + 1)
    } else {
        i
    }
}

/// The decimal value spelled by the digits of `s[from..to]`.
pub open spec fn dec_val(s: Seq<u8>, from: int, to: int) -> int
    decreases to - from,
{
    if to <= from {
        0
    } else {
        let p = dec_val(s, from, to - 1);
        if is_digit(s[to - 1]) {
            p * 10 + (s[to - 1] - 48)
        } else {
            p
        }
    }
}

/// Bounds and characterization of [`first_nondigit_from`].
pub proof fn lemma_first_nondigit_from(s: Seq<u8>, i: int)
    requires
        0 <= i <= s.len(),
    ensures
        i <= first_nondigit_from(s, i) <= s.len(),
        first_nondigit_from(s, i) < s.len() ==> !is_digit(s[first_nondigit_from(s, i)]),
        forall|j: int| i <= j < first_nondigit_from(s, i) ==> is_digit(s[j]),
    decreases s.len() - i,
{
    if i < s.len() && is_digit(s[i]) {
        lemma_first_nondigit_from(s, i + 1);
    }
}

/// A decimal value grows, and stays non-negative, as digits are appended.
pub proof fn lemma_dec_val_mono(s: Seq<u8>, from: int, j: int, to: int)
    requires
        from <= j <= to,
    ensures
        0 <= dec_val(s, from, j) <= dec_val(s, from, to),
    decreases to - j,
{
    if j < to {
        lemma_dec_val_mono(s, from, j, to - 1);
    } else {
        lemma_dec_val_nonneg(s, from, j);
    }
}

/// A decimal value is never negative.
pub proof fn lemma_dec_val_nonneg(s: Seq<u8>, from: int, to: int)
    ensures
        dec_val(s, from, to) >= 0,
    decreases to - from,
{
    if to > from {
        lemma_dec_val_nonneg(s, from, to - 1);
    }
}

impl Deserializer {
    /// Read `true` or `false`, after optional whitespace.  Exactly the
    /// bytes of the matched word are consumed.
    pub fn parse_bool(&mut self) -> (r: Result<bool, Error>)
        requires
            old(self).wf(),
            old(self).input().len() + 8 < usize::MAX,
        ensures
            final(self).wf(),
            final(self).input() == old(self).input(),
            ({
                let s = old(self).input();
                let a = first_non_ws(s, old(self).at());
                if a >= s.len() {
                    r == Err::<bool, Error>(Error::EofWhileParsingValue)
                } else if s[a] == 116 {
                    if match_len(s, a + 1, seq![114u8, 117u8, 101u8], 0) == 3 {
                        r == Ok::<bool, Error>(true) && final(self).at() == a + 4
                    } else {
                        r == Err::<bool, Error>(Error::ExpectedSomeIdent)
                    }
                } else if s[a] == 102 {
                    if match_len(s, a + 1, seq![97u8, 108u8, 115u8, 101u8], 0) == 4 {
                        r == Ok::<bool, Error>(false) && final(self).at() == a + 5
                    } else {
                        r == Err::<bool, Error>(Error::ExpectedSomeIdent)
                    }
                } else {
                    r == Err::<bool, Error>(Error::InvalidType) && final(self).at() == a
                }
            }),
    {
        let peek = self.parse_whitespace();
        match peek {
            None => Err(Error::EofWhileParsingValue),
            Some(116u8) => {
                self.eat_char();
                let rue: Vec<u8> = vec![114u8, 117u8, 101u8];
                proof {
                    assert(rue@ =~= seq![114u8, 117u8, 101u8]);
                }
                match self.parse_ident(rue.as_slice()) {
                    Ok(_) => Ok(true),
                    Err(e) => Err(e),
                }
            },
            Some(102u8) => {
                self.eat_char();
                let alse: Vec<u8> = vec![97u8, 108u8, 115u8, 101u8];
                proof {
                    assert(alse@ =~= seq![97u8, 108u8, 115u8, 101u8]);
                }
                match self.parse_ident(alse.as_slice()) {
                    Ok(_) => Ok(false),
                    Err(e) => Err(e),
                }
            },
            Some(_) => Err(Error::InvalidType),
        }
    }

    /// Read an unsigned decimal number no larger than `max`, after
    /// optional whitespace.  A leading zero is the number zero; a run of
    /// digits is its decimal value, rejected with `InvalidNumber` when it
    /// exceeds `max`; a minus sign and any other byte are rejected.
    pub fn parse_unsigned(&mut self, max: u64) -> (r: Result<u64, Error>)
        requires
            old(self).wf(),
        ensures
            final(self).wf(),
            final(self).input() == old(self).input(),
            ({
                let s = old(self).input();
                let a = first_non_ws(s, old(self).at());
                if a >= s.len() {
                    r == Err::<u64, Error>(Error::EofWhileParsingValue)
                } else if s[a] == 45 {
                    r == Err::<u64, Error>(Error::InvalidNumber) && final(self).at() == a
                } else if s[a] == 48 {
                    r == Ok::<u64, Error>(0) && final(self).at() == a + 1
                } else if 49 <= s[a] <= 57 {
                    if dec_val(s, a, first_nondigit_from(s, a)) <= max {
                        r == Ok::<u64, Error>(dec_val(s, a, first_nondigit_from(s, a)) as u64)
                            && final(self).at() == first_nondigit_from(s, a)
                    } else {
                        r == Err::<u64, Error>(Error::InvalidNumber)
                    }
                } else {
                    r == Err::<u64, Error>(Error::InvalidType) && final(self).at() == a
                }
            }),
    {
        let peek = self.parse_whitespace();
        match peek {
            None => Err(Error::EofWhileParsingValue),
            Some(c) => {
                if c == 45 {
                    Err(Error::InvalidNumber)
                } else if c == 48 {
                    self.eat_char();
                    Ok(0)
                } else if 49 <= c && c <= 57 {
                    let ghost s = self.input();
                    let ghost a = self.at();
                    let ghost end = first_nondigit_from(s, a);
                    proof {
                        lemma_first_nondigit_from(s, a);
                    }
                    self.eat_char();
                    let mut acc: u64 = (c - 48) as u64;
                    proof {
                        assert(dec_val(s, a, a) == 0);
                        assert(acc as int == dec_val(s, a, a + 1));
                    }
                    if acc > max {
                        proof {
                            lemma_dec_val_mono(s, a, a + 1, end);
                        }
                        return Err(Error::InvalidNumber);
                    }
                    loop
                        invariant
                            self.wf(),
                            self.input() == s,
                            s == old(self).input(),
                            a == first_non_ws(s, old(self).at()),
                            49 <= s[a] <= 57,
                            0 <= a < self.at() <= end <= s.len(),
                            end == first_nondigit_from(s, a),
                            forall|j: int| a <= j < end ==> is_digit(s[j]),
                            end < s.len() ==> !is_digit(s[end]),
                            acc as int == dec_val(s, a, self.at()),
                            acc <= max,
                        ensures
                            self.wf(),
                            self.input() == s,
                            self.at() == end,
                            acc as int == dec_val(s, a, end),
                            acc <= max,
                        decreases s.len() - self.at(),
                    {
                        if self.index >= self.bytes.len() {
                            break;
                        }
                        let d = self.bytes[self.index];
                        if !(48 <= d && d <= 57) {
                            break;
                        }
                        let t: u128 = (acc as u128) * 10 + ((d - 48) as u128);
                        if t > max as u128 {
                            proof {
                                lemma_dec_val_mono(s, a, self.at() + 1, end);
                            }
                            return Err(Error::InvalidNumber);
                        }
                        acc = t as u64;
                        self.index = self.index + 1;
                    }
                    Ok(acc)
                } else {
                    Err(Error::InvalidType)
                }
            },
        }
    }
}

} // verus!

verus! {

/// A hex string value, with the flags that steer how it is written back
/// out: whether to prefix `0x`, capitalize, group nibbles with a
/// delimiter, and whether trailing zero bytes are kept.
#[derive(Clone, Copy, PartialEq, Eq, Debug, Structural)]
pub struct HexStr<T> {
    /// The value read from the hex digits.
    pub val: T,
    /// Add `0x` when writing the value out.
    pub add_0x_with_encoding: bool,
    /// Write the hex digits in capital letters.
    pub hex_in_caps: bool,
    /// Group this many nibbles between delimiters; zero for no grouping.
    pub delimiter_after_nibble_count: usize,
    /// The delimiter written between nibble groups.
    pub delimiter: char,
    /// Leave out trailing zero values when writing out.
    pub skip_last_0_values: bool,
}

/// Whether `c` is an ASCII hex digit.
pub open spec fn is_hexdig(c: u8) -> bool {
    (48 <= c <= 57) || (65 <= c <= 70) || (97 <= c <= 102)
}

/// The value of the hex digit `c`.
pub open spec fn hexdig_val(c: u8) -> int {
    if 48 <= c <= 57 {
        c - 48
    } else if 65 <= c <= 70 {
        c - 65 + 10
    } else if 97 <= c <= 102 {
        c - 97 + 10
    } else {
        0
    }
}

/// `s` without a leading `0x` or `0X`.
pub open spec fn strip_radix(s: Seq<u8>) -> Seq<u8> {
    if s.len() >= 2 && s[0] == 48 && (s[1] == 120 || s[1] == 88) {
        s.skip(2)
    } else {
        s
    }
}

/// The value spelled by the hex digits among the first `j` bytes of `s`,
/// folded left to right into a register of `16 * div` states: each digit
/// shifts the kept low bits up one nibble, so digits beyond the width
/// fall off the top.  Bytes that are not hex digits are skipped.
pub open spec fn hex_val_upto(s: Seq<u8>, j: int, div: int) -> int
    decreases j,
{
    if j <= 0 {
        0
    } else {
        let p = hex_val_upto(s, j - 1, div);
        if is_hexdig(s[j - 1]) {
            (p % div) * 16 + hexdig_val(s[j - 1])
        } else {
            p
        }
    }
}

/// The value of all hex digits of `s`, into a register of `16 * div`
/// states.
pub open spec fn hex_val(s: Seq<u8>, div: int) -> int {
    hex_val_upto(s, s.len() as int, div)
}

/// A folded hex value stays under `16 * div`.
pub proof fn lemma_hex_val_bound(s: Seq<u8>, j: int, div: int)
    requires
        div >= 1,
    ensures
        0 <= hex_val_upto(s, j, div) < 16 * div,
    decreases j,
{
    if j > 0 {
        lemma_hex_val_bound(s, j - 1, div);
    }
}

/// Read the hex digits of `s` — after an optional `0x`/`0X`, skipping
/// delimiter bytes — into a register of `16 * div` states.
///
/// Every non-hex byte is skipped as a delimiter, so this reader is
/// total: it accepts byte spans that are not valid text, where a reader
/// insisting on text would reject them.  On every span of valid text
/// the value is the same either way, since a hex digit is always a
/// single text byte.
pub fn parse_hex_value(s: &[u8], div: u128) -> (r: u128)
    requires
        1 <= div <= 0x10000000000000000000000000000000u128,
    ensures
        r as int == hex_val(strip_radix(s@), div as int),
        r < 16 * div,
{
    let start: usize = if s.len() >= 2 && s[0] == 48 && (s[1] == 120 || s[1] == 88) {
        2
    } else {
        0
    };
    let ghost t = strip_radix(s@);
    proof {
        assert(t =~= s@.skip(start as int));
    }
    let mut acc: u128 = 0;
    let mut j: usize = start;
    while j < s.len()
        invariant
            start <= j <= s@.len(),
            1 <= div <= 0x10000000000000000000000000000000,
            t == s@.skip(start as int),
            acc as int == hex_val_upto(t, j - start, div as int),
            acc < 16 * div,
        decreases s@.len() - j,
    {
        let c = s[j];
        proof {
            assert(t[j - start] == s@[j as int]);
            lemma_hex_val_bound(t, j - start, div as int);
        }
        if (48 <= c && c <= 57) || (65 <= c && c <= 70) || (97 <= c && c <= 102) {
            let d: u128 = if c <= 57 {
                (c - 48) as u128
            } else if c <= 70 {
                (c - 65 + 10) as u128
            } else {
                (c - 97 + 10) as u128
            };
            acc = (acc % div) * 16 + d;
        }
        j = j + 1;
    }
    proof {
        assert(j - start == t.len());
    }
    acc
}

/// A hex string with the reading defaults: no `0x` on output, capital
/// letters, no grouping, trailing zero values left out.
pub fn hex_str_with_defaults_u8(val: u8) -> (r: HexStr<u8>)
    ensures
        r.val == val,
        !r.add_0x_with_encoding,
        r.hex_in_caps,
        r.delimiter_after_nibble_count == 0,
        r.delimiter == ' ',
        r.skip_last_0_values,
{
    HexStr {
        val,
        add_0x_with_encoding: false,
        hex_in_caps: true,
        delimiter_after_nibble_count: 0,
        delimiter: ' ',
        skip_last_0_values: true,
    }
}

/// Read a `u8` hex string from the bytes of a value field.  Total over
/// byte spans; see [`parse_hex_value`] on spans that are not valid text.
pub fn parse_hex_u8(s: &[u8]) -> (r: HexStr<u8>)
    ensures
        r.val as int == hex_val(strip_radix(s@), 16),
        !r.add_0x_with_encoding && r.hex_in_caps && r.skip_last_0_values,
        r.delimiter_after_nibble_count == 0 && r.delimiter == ' ',
{
    let v = parse_hex_value(s, 16);
    hex_str_with_defaults_u8(v as u8)
}

/// Read a `u16` hex string from the bytes of a value field.
pub fn parse_hex_u16(s: &[u8]) -> (r: HexStr<u16>)
    ensures
        r.val as int == hex_val(strip_radix(s@), 4096),
        !r.add_0x_with_encoding && r.hex_in_caps && r.skip_last_0_values,
        r.delimiter_after_nibble_count == 0 && r.delimiter == ' ',
{
    let v = parse_hex_value(s, 4096);
    HexStr {
        val: v as u16,
        add_0x_with_encoding: false,
        hex_in_caps: true,
        delimiter_after_nibble_count: 0,
        delimiter: ' ',
        skip_last_0_values: true,
    }
}

/// Read a `u32` hex string from the bytes of a value field.
pub fn parse_hex_u32(s: &[u8]) -> (r: HexStr<u32>)
    ensures
        r.val as int == hex_val(strip_radix(s@), 0x10000000),
        !r.add_0x_with_encoding && r.hex_in_caps && r.skip_last_0_values,
        r.delimiter_after_nibble_count == 0 && r.delimiter == ' ',
{
    let v = parse_hex_value(s, 0x10000000);
    HexStr {
        val: v as u32,
        add_0x_with_encoding: false,
        hex_in_caps: true,
        delimiter_after_nibble_count: 0,
        delimiter: ' ',
        skip_last_0_values: true,
    }
}

/// Read a `u64` hex string from the bytes of a value field.
pub fn parse_hex_u64(s: &[u8]) -> (r: HexStr<u64>)
    ensures
        r.val as int == hex_val(strip_radix(s@), 0x1000000000000000),
        !r.add_0x_with_encoding && r.hex_in_caps && r.skip_last_0_values,
        r.delimiter_after_nibble_count == 0 && r.delimiter == ' ',
{
    let v = parse_hex_value(s, 0x1000000000000000);
    HexStr {
        val: v as u64,
        add_0x_with_encoding: false,
        hex_in_caps: true,
        delimiter_after_nibble_count: 0,
        delimiter: ' ',
        skip_last_0_values: true,
    }
}

/// Read a `u128` hex string from the bytes of a value field.
pub fn parse_hex_u128(s: &[u8]) -> (r: HexStr<u128>)
    ensures
        r.val as int == hex_val(strip_radix(s@), 0x10000000000000000000000000000000),
        !r.add_0x_with_encoding && r.hex_in_caps && r.skip_last_0_values,
        r.delimiter_after_nibble_count == 0 && r.delimiter == ' ',
{
    let v = parse_hex_value(s, 0x10000000000000000000000000000000);
    HexStr {
        val: v,
        add_0x_with_encoding: false,
        hex_in_caps: true,
        delimiter_after_nibble_count: 0,
        delimiter: ' ',
        skip_last_0_values: true,
    }
}

} // verus!

verus! {

impl Deserializer {
    /// Read a signed decimal number, after optional whitespace: an
    /// optional minus sign, then digits.  The magnitude is rejected with
    /// `InvalidNumber` beyond `max` (or `max + 1` under a minus sign,
    /// for the most negative value of the width).
    pub fn parse_signed(&mut self, max: u64) -> (r: Result<(bool, u64), Error>)
        requires
            old(self).wf(),
            max < u64::MAX,
        ensures
            final(self).wf(),
            final(self).input() == old(self).input(),
            ({
                let s = old(self).input();
                let a = first_non_ws(s, old(self).at());
                let neg = a < s.len() && s[a] == 45;
                let b = if neg {
                    a + 1
                } else {
                    a
                };
                let bound = if neg {
                    max + 1
                } else {
                    max as int
                };
                if a >= s.len() {
                    r == Err::<(bool, u64), Error>(Error::EofWhileParsingValue)
                } else if b >= s.len() {
                    r == Err::<(bool, u64), Error>(Error::EofWhileParsingValue)
                } else if s[b] == 48 {
                    r == Ok::<(bool, u64), Error>((neg, 0)) && final(self).at() == b + 1
                } else if 49 <= s[b] <= 57 {
                    if dec_val(s, b, first_nondigit_from(s, b)) <= bound {
                        r == Ok::<(bool, u64), Error>(
                            (neg, dec_val(s, b, first_nondigit_from(s, b)) as u64),
                        ) && final(self).at() == first_nondigit_from(s, b)
                    } else {
                        r == Err::<(bool, u64), Error>(Error::InvalidNumber)
                    }
                } else {
                    r == Err::<(bool, u64), Error>(Error::InvalidType)
                }
            }),
    {
        let peek = self.parse_whitespace();
        let ghost a = self.at();
        match peek {
            None => Err(Error::EofWhileParsingValue),
            Some(c0) => {
                let neg = c0 == 45;
                if neg {
                    self.eat_char();
                }
                let bound: u64 = if neg {
                    max + 1
                } else {
                    max
                };
                let ghost s = self.input();
                let ghost b = self.at();
                match self.peek() {
                    None => Err(Error::EofWhileParsingValue),
                    Some(c) => {
                        if c == 48 {
                            self.eat_char();
                            Ok((neg, 0))
                        } else if 49 <= c && c <= 57 {
                            let ghost end = first_nondigit_from(s, b);
                            proof {
                                lemma_first_nondigit_from(s, b);
                            }
                            self.eat_char();
                            let mut acc: u64 = (c - 48) as u64;
                            if acc > bound {
                                proof {
                                    lemma_dec_val_mono(s, b, b + 1, end);
                                }
                                return Err(Error::InvalidNumber);
                            }
                            proof {
                                assert(dec_val(s, b, b) == 0);
                                assert(acc as int == dec_val(s, b, b + 1));
                            }
                            loop
                                invariant
                                    self.wf(),
                                    self.input() == s,
                                    s == old(self).input(),
                                    a == first_non_ws(s, old(self).at()),
                                    0 <= a < s.len(),
                                    neg == (s[a] == 45),
                                    b == if neg { a + 1 } else { a as int },
                                    b < s.len(),
                                    49 <= s[b] <= 57,
                                    max < u64::MAX,
                                    0 <= b < self.at() <= end <= s.len(),
                                    end == first_nondigit_from(s, b),
                                    forall|j: int| b <= j < end ==> is_digit(s[j]),
                                    end < s.len() ==> !is_digit(s[end]),
                                    acc as int == dec_val(s, b, self.at()),
                                    acc <= bound,
                                    bound == if neg {
                                        max + 1
                                    } else {
                                        max as int
                                    },
                                ensures
                                    self.wf(),
                                    self.input() == s,
                                    self.at() == end,
                                    acc as int == dec_val(s, b, end),
                                    acc <= bound,
                                decreases s.len() - self.at(),
                            {
                                if self.index >= self.bytes.len() {
                                    break;
                                }
                                let d = self.bytes[self.index];
                                if !(48 <= d && d <= 57) {
                                    break;
                                }
                                let t: u128 = (acc as u128) * 10 + ((d - 48) as u128);
                                if t > bound as u128 {
                                    proof {
                                        lemma_dec_val_mono(s, b, self.at() + 1, end);
                                    }
                                    return Err(Error::InvalidNumber);
                                }
                                acc = t as u64;
                                self.index = self.index + 1;
                            }
                            Ok((neg, acc))
                        } else {
                            Err(Error::InvalidType)
                        }
                    },
                }
            },
        }
    }
}

} // verus!

verus! {

impl Deserializer {
    /// Read an unsigned decimal number no larger than `max`, like
    /// [`Deserializer::parse_unsigned`], but into the widest integer, so
    /// identifiers longer than twenty digits can be read.
    pub fn parse_unsigned_wide(&mut self, max: u128) -> (r: Result<u128, Error>)
        requires
            old(self).wf(),
        ensures
            final(self).wf(),
            final(self).input() == old(self).input(),
            ({
                let s = old(self).input();
                let a = first_non_ws(s, old(self).at());
                if a >= s.len() {
                    r == Err::<u128, Error>(Error::EofWhileParsingValue)
                } else if s[a] == 45 {
                    r == Err::<u128, Error>(Error::InvalidNumber) && final(self).at() == a
                } else if s[a] == 48 {
                    r == Ok::<u128, Error>(0) && final(self).at() == a + 1
                } else if 49 <= s[a] <= 57 {
                    if dec_val(s, a, first_nondigit_from(s, a)) <= max {
                        r == Ok::<u128, Error>(dec_val(s, a, first_nondigit_from(s, a)) as u128)
                            && final(self).at() == first_nondigit_from(s, a)
                    } else {
                        r == Err::<u128, Error>(Error::InvalidNumber)
                    }
                } else {
                    r == Err::<u128, Error>(Error::InvalidType) && final(self).at() == a
                }
            }),
    {
        let peek = self.parse_whitespace();
        let ghost aa = self.at();
        match peek {
            None => Err(Error::EofWhileParsingValue),
            Some(c) => {
                if c == 45 {
                    Err(Error::InvalidNumber)
                } else if c == 48 {
                    self.eat_char();
                    Ok(0)
                } else if 49 <= c && c <= 57 {
                    let ghost s = self.input();
                    let ghost a = self.at();
                    let ghost end = first_nondigit_from(s, a);
                    proof {
                        lemma_first_nondigit_from(s, a);
                    }
                    self.eat_char();
                    let mut acc: u128 = (c - 48) as u128;
                    if acc > max {
                        proof {
                            lemma_dec_val_mono(s, a, a + 1, end);
                        }
                        return Err(Error::InvalidNumber);
                    }
                    proof {
                        assert(dec_val(s, a, a) == 0);
                        assert(acc as int == dec_val(s, a, a + 1));
                    }
                    loop
                        invariant
                            self.wf(),
                            self.input() == s,
                            s == old(self).input(),
                            a == first_non_ws(s, old(self).at()),
                            0 <= a < s.len(),
                            49 <= s[a] <= 57,
                            0 <= a < self.at() <= end <= s.len(),
                            end == first_nondigit_from(s, a),
                            forall|j: int| a <= j < end ==> is_digit(s[j]),
                            end < s.len() ==> !is_digit(s[end]),
                            acc as int == dec_val(s, a, self.at()),
                            acc <= max,
                        ensures
                            self.wf(),
                            self.input() == s,
                            self.at() == end,
                            acc as int == dec_val(s, a, end),
                            acc <= max,
                        decreases s.len() - self.at(),
                    {
                        if self.index >= self.bytes.len() {
                            break;
                        }
                        let d8 = self.bytes[self.index];
                        if !(48 <= d8 && d8 <= 57) {
                            break;
                        }
                        let d = (d8 - 48) as u128;
                        let overflow = acc > max / 10 || (acc == max / 10 && d > max % 10);
                        proof {
                            assert(overflow == (acc * 10 + d > max)) by (nonlinear_arith)
                                requires
                                    acc >= 0,
                                    0 <= d <= 9,
                                    overflow == (acc > max / 10 || (acc == max / 10 && d > max
                                        % 10)),
                                    max / 10 == (max as int) / 10,
                                    max % 10 == (max as int) % 10,
                            ;
                        }
                        if overflow {
                            proof {
                                lemma_dec_val_mono(s, a, self.at() + 1, end);
                            }
                            return Err(Error::InvalidNumber);
                        }
                        acc = acc * 10 + d;
                        self.index = self.index + 1;
                    }
                    Ok(acc)
                } else {
                    Err(Error::InvalidType)
                }
            },
        }
    }
}

} // verus!
