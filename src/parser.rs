//! A cursor over a byte buffer that reads fixed-width text and numeric fields.
use vstd::prelude::*;
use vstd::string::StrSliceExecFns;
use vstd::utf8::{decode_utf8, encode_scalar, encode_utf8, valid_utf8, encode_utf8_decode_utf8};
use crate::error::EdfError;

verus! {

/// The characters with the Unicode `White_Space` property.
pub open spec fn is_white(c: char) -> bool {
    let u = c as u32;
    ||| 9 <= u <= 13
    ||| u == 32
    ||| u == 0x85
    ||| u == 0xA0
    ||| u == 0x1680
    ||| 0x2000 <= u <= 0x200A
    ||| u == 0x2028
    ||| u == 0x2029
    ||| u == 0x202F
    ||| u == 0x205F
    ||| u == 0x3000
}

/// `s` without its leading whitespace.
pub open spec fn trim_front(s: Seq<char>) -> Seq<char>
    decreases s.len(),
{
    if s.len() > 0 && is_white(s[0]) {
        trim_front(s.drop_first())
    } else {
        s
    }
}

/// `s` without its trailing whitespace.
pub open spec fn trim_back(s: Seq<char>) -> Seq<char>
    decreases s.len(),
{
    if s.len() > 0 && is_white(s.last()) {
        trim_back(s.drop_last())
    } else {
        s
    }
}

/// `s` without surrounding whitespace.
pub open spec fn trim(s: Seq<char>) -> Seq<char> {
    trim_back(trim_front(s))
}

/// The field of width `n` at `offset` is valid UTF-8.
pub open spec fn field_ok(raw: Seq<u8>, offset: int, n: int) -> bool {
    valid_utf8(raw.subrange(offset, offset + n))
}

/// The text of the field of width `n` at `offset`, without surrounding whitespace.
#[verifier::opaque]
pub open spec fn field_text(raw: Seq<u8>, offset: int, n: int) -> Seq<char> {
    trim(decode_utf8(raw.subrange(offset, offset + n)))
}

/// The UTF-8 bytes of that text.
pub open spec fn field_bytes(raw: Seq<u8>, offset: int, n: int) -> Seq<u8> {
    encode_utf8(field_text(raw, offset, n))
}

/// The value of type `T` that the field of width `n` at `offset` holds, if any.
pub open spec fn field_number<T: FieldValue>(raw: Seq<u8>, offset: int, n: int) -> Option<T> {
    if field_ok(raw, offset, n) {
        T::spec_from_field(field_bytes(raw, offset, n))
    } else {
        None
    }
}

fn is_white_char(c: char) -> (r: bool)
    ensures
        r == is_white(c),
{
    let u = c as u32;
    (9 <= u && u <= 13) || u == 32 || u == 0x85 || u == 0xA0 || u == 0x1680 || (0x2000 <= u && u
        <= 0x200A) || u == 0x2028 || u == 0x2029 || u == 0x202F || u == 0x205F || u == 0x3000
}

/// `s` without surrounding whitespace.
fn trim_str(s: &str) -> (r: String)
    ensures
        r@ == trim(s@),
{
    let n = s.unicode_len();
    assert(s@.subrange(0, n as int) =~= s@);
    let mut lo: usize = 0;
    while lo < n && is_white_char(s.get_char(lo))
        invariant
            lo <= n == s@.len(),
            trim_front(s@) == trim_front(s@.subrange(lo as int, n as int)),
        decreases n - lo,
    {
        assert(s@.subrange(lo as int, n as int).drop_first() =~= s@.subrange(lo + 1, n as int));
        lo = lo + 1;
    }
    let mut hi: usize = n;
    while hi > lo && is_white_char(s.get_char(hi - 1))
        invariant
            lo <= hi <= n == s@.len(),
            trim_back(s@.subrange(lo as int, n as int)) == trim_back(
                s@.subrange(lo as int, hi as int),
            ),
        decreases hi - lo,
    {
        assert(s@.subrange(lo as int, hi as int).drop_last() =~= s@.subrange(lo as int, hi - 1));
        hi = hi - 1;
    }
    s.substring_char(lo, hi).to_owned()
}

/// The text of `raw[start..end]` without surrounding whitespace, if it is UTF-8.
fn field_string(raw: &Vec<u8>, start: usize, end: usize) -> (r: Option<String>)
    requires
        start <= end <= raw@.len(),
    ensures
        r is Some <==> field_ok(raw@, start as int, end - start),
        r matches Some(s) ==> s@ == field_text(raw@, start as int, end - start),
{
    reveal(field_text);
    let bytes = copy_range(raw, start, end);
    match string_from_utf8(bytes) {
        Some(s) => {
            proof {
                encode_utf8_decode_utf8(s@);
            }
            Some(trim_str(s.as_str()))
        },
        None => None,
    }
}

/// Copy of `raw[lo..hi]`.
fn copy_range(raw: &Vec<u8>, lo: usize, hi: usize) -> (r: Vec<u8>)
    requires
        lo <= hi <= raw@.len(),
    ensures
        r@ == raw@.subrange(lo as int, hi as int),
{
    let mut out: Vec<u8> = Vec::new();
    let mut i: usize = lo;
    while i < hi
        invariant
            lo <= i <= hi <= raw@.len(),
            out@ == raw@.subrange(lo as int, i as int),
        decreases hi - i,
    {
        out.push(raw[i]);
        i = i + 1;
        assert(out@ =~= raw@.subrange(lo as int, i as int));
    }
    out
}

/// Relies on `String::from_utf8`: it succeeds exactly on valid UTF-8, and the
/// string then holds those bytes.
#[verifier::external_body]
fn string_from_utf8(bytes: Vec<u8>) -> (r: Option<String>)
    ensures
        r is Some <==> valid_utf8(bytes@),
        r matches Some(s) ==> encode_utf8(s@) == bytes@,
{
    String::from_utf8(bytes).ok()
}

// ---------------------------------------------------------------- numbers

pub open spec fn is_digit(b: u8) -> bool {
    48 <= b <= 57
}

pub open spec fn all_digits(s: Seq<u8>) -> bool {
    forall|i: int| 0 <= i < s.len() ==> is_digit(#[trigger] s[i])
}

/// The value of a run of decimal digits, most significant first.
pub open spec fn digits_value(s: Seq<u8>) -> nat
    decreases s.len(),
{
    if s.len() == 0 {
        0
    } else {
        digits_value(s.drop_last()) * 10 + (s.last() - 48) as nat
    }
}

pub open spec fn pow10(n: nat) -> nat
    decreases n,
{
    if n == 0 {
        1
    } else {
        10 * pow10((n - 1) as nat)
    }
}

/// `t` without one leading sign byte `sign`, if it starts with one.
pub open spec fn after_sign(t: Seq<u8>, sign: u8) -> Seq<u8> {
    if t.len() > 0 && t[0] == sign {
        t.drop_first()
    } else {
        t
    }
}

/// An unsigned literal: an optional `+` and at least one digit.
pub open spec fn unsigned_literal(t: Seq<u8>) -> Option<nat> {
    let body = after_sign(t, 43);
    if body.len() > 0 && all_digits(body) {
        Some(digits_value(body))
    } else {
        None
    }
}

/// A signed literal: an optional `+` or `-` and at least one digit.
pub open spec fn signed_literal(t: Seq<u8>) -> Option<int> {
    if t.len() > 0 && t[0] == 45 {
        let body = t.drop_first();
        if body.len() > 0 && all_digits(body) {
            Some(-digits_value(body))
        } else {
            None
        }
    } else {
        match unsigned_literal(t) {
            Some(v) => Some(v as int),
            None => None,
        }
    }
}

pub proof fn lemma_digits_value_bound(s: Seq<u8>)
    requires
        all_digits(s),
    ensures
        digits_value(s) < pow10(s.len()),
    decreases s.len(),
{
    if s.len() > 0 {
        lemma_digits_value_bound(s.drop_last());
    }
}

/// The value of the digits `raw[lo..hi]`, when they are all digits, there is at
/// least one, and the value fits in a `u64`.
fn digits_at(raw: &Vec<u8>, lo: usize, hi: usize) -> (r: Option<u64>)
    requires
        lo <= hi <= raw@.len(),
    ensures
        r is Some <==> ({
            let s = raw@.subrange(lo as int, hi as int);
            s.len() > 0 && all_digits(s) && digits_value(s) <= u64::MAX
        }),
        r matches Some(v) ==> v == digits_value(raw@.subrange(lo as int, hi as int)),
{
    if lo == hi {
        return None;
    }
    let mut value: u64 = 0;
    let mut overflow: bool = false;
    let mut i: usize = lo;
    while i < hi
        invariant
            lo <= i <= hi <= raw@.len(),
            all_digits(raw@.subrange(lo as int, i as int)),
            !overflow ==> value == digits_value(raw@.subrange(lo as int, i as int)),
            overflow ==> digits_value(raw@.subrange(lo as int, i as int)) > u64::MAX,
        decreases hi - i,
    {
        let b = raw[i];
        if b < 48 || b > 57 {
            assert(raw@.subrange(lo as int, hi as int)[i - lo] == b);
            return None;
        }
        let ghost prefix = raw@.subrange(lo as int, i as int);
        let ghost next = raw@.subrange(lo as int, i + 1);
        assert(next.drop_last() =~= prefix);
        assert(all_digits(next)) by {
            assert forall|k: int| 0 <= k < next.len() implies is_digit(#[trigger] next[k]) by {
                if k < prefix.len() {
                    assert(next[k] == prefix[k]);
                }
            }
        }
        let d: u64 = (b - 48) as u64;
        if !overflow {
            if value > (u64::MAX - d) / 10 {
                overflow = true;
            } else {
                value = value * 10 + d;
            }
        }
        i = i + 1;
    }
    assert(raw@.subrange(lo as int, hi as int) =~= raw@.subrange(lo as int, i as int));
    if overflow {
        None
    } else {
        Some(value)
    }
}

/// A value that a numeric field can hold, read from the field's trimmed text.
pub trait FieldValue: Sized {
    /// The value that the trimmed text `t` denotes, if it is a literal of this type.
    spec fn spec_from_field(t: Seq<u8>) -> Option<Self>;

    fn from_field(raw: &Vec<u8>, lo: usize, hi: usize) -> (r: Option<Self>)
        requires
            lo <= hi <= raw@.len(),
        ensures
            r == Self::spec_from_field(raw@.subrange(lo as int, hi as int)),
    ;
}

/// Position of the body of `raw[lo..hi]` after one optional sign byte `sign`.
fn skip_sign(raw: &Vec<u8>, lo: usize, hi: usize, sign: u8) -> (r: usize)
    requires
        lo <= hi <= raw@.len(),
    ensures
        lo <= r <= hi,
        raw@.subrange(r as int, hi as int) == after_sign(raw@.subrange(lo as int, hi as int), sign),
{
    if lo < hi && raw[lo] == sign {
        assert(raw@.subrange(lo as int, hi as int).drop_first() =~= raw@.subrange(lo + 1, hi as int));
        lo + 1
    } else {
        lo
    }
}

impl FieldValue for u64 {
    open spec fn spec_from_field(t: Seq<u8>) -> Option<u64> {
        match unsigned_literal(t) {
            Some(v) => if v <= u64::MAX { Some(v as u64) } else { None },
            None => None,
        }
    }

    fn from_field(raw: &Vec<u8>, lo: usize, hi: usize) -> (r: Option<u64>) {
        let start = skip_sign(raw, lo, hi, 43);
        digits_at(raw, start, hi)
    }
}

impl FieldValue for usize {
    open spec fn spec_from_field(t: Seq<u8>) -> Option<usize> {
        match unsigned_literal(t) {
            Some(v) => if v <= usize::MAX { Some(v as usize) } else { None },
            None => None,
        }
    }

    fn from_field(raw: &Vec<u8>, lo: usize, hi: usize) -> (r: Option<usize>) {
        let start = skip_sign(raw, lo, hi, 43);
        match digits_at(raw, start, hi) {
            Some(v) => if (v as u128) <= (usize::MAX as u128) {
                Some(v as usize)
            } else {
                None
            },
            None => None,
        }
    }
}

impl FieldValue for i64 {
    open spec fn spec_from_field(t: Seq<u8>) -> Option<i64> {
        match signed_literal(t) {
            Some(v) => if i64::MIN <= v <= i64::MAX { Some(v as i64) } else { None },
            None => None,
        }
    }

    fn from_field(raw: &Vec<u8>, lo: usize, hi: usize) -> (r: Option<i64>) {
        if lo < hi && raw[lo] == 45 {
            assert(raw@.subrange(lo as int, hi as int).drop_first() =~= raw@.subrange(
                lo + 1,
                hi as int,
            ));
            match digits_at(raw, lo + 1, hi) {
                Some(v) => if v <= 9223372036854775808 {
                    if v == 9223372036854775808 {
                        Some(i64::MIN)
                    } else {
                        Some(-(v as i64))
                    }
                } else {
                    None
                },
                None => None,
            }
        } else {
            let start = skip_sign(raw, lo, hi, 43);
            match digits_at(raw, start, hi) {
                Some(v) => if v <= 9223372036854775807 { Some(v as i64) } else { None },
                None => None,
            }
        }
    }
}

// ---------------------------------------------------------------- the cursor

/// A cursor over a byte buffer.
pub struct Parser {
    pub offset: usize,
    pub raw: Vec<u8>,
}

impl Parser {
    pub fn new(raw: Vec<u8>) -> (r: Parser)
        ensures
            r.offset == 0,
            r.raw@ == raw@,
    {
        Parser { raw: raw, offset: 0 }
    }

    /// Whether a field of `field_length` bytes lies wholly inside the buffer.
    fn check_capacity(&self, field_length: usize) -> (r: bool)
        ensures
            r == (self.offset + field_length <= self.raw@.len()),
            r ==> self.offset + field_length <= usize::MAX,
    {
        self.offset <= self.raw.len() && field_length <= self.raw.len() - self.offset
    }

    /// Reads the next field of `field_length` bytes as text without its
    /// surrounding blanks, and moves past it.
    pub fn parse_string(&mut self, field_length: usize) -> (r: Result<String, EdfError>)
        ensures
            final(self).raw@ == old(self).raw@,
            old(self).offset + field_length > old(self).raw@.len() ==> r == Err::<
                String,
                EdfError,
            >(EdfError::OutOfData) && final(self).offset == old(self).offset,
            old(self).offset + field_length <= old(self).raw@.len() ==> {
                let (raw, o, n) = (old(self).raw@, old(self).offset as int, field_length as int);
                &&& final(self).offset == old(self).offset + field_length
                &&& field_ok(raw, o, n) ==> (r matches Ok(s) && s@ == field_text(raw, o, n))
                &&& !field_ok(raw, o, n) ==> r == Err::<String, EdfError>(EdfError::MalformedText)
            },
    {
        if !self.check_capacity(field_length) {
            return Err(EdfError::OutOfData);
        }
        let start = self.offset;
        let end = self.offset + field_length;
        self.offset = end;
        match field_string(&self.raw, start, end) {
            Some(s) => Ok(s),
            None => Err(EdfError::MalformedText),
        }
    }

    /// Moves the cursor `field_length` bytes on without reading.
    pub fn move_offset(&mut self, field_length: usize) -> (r: &mut Self)
        requires
            old(self).offset + field_length <= usize::MAX,
        ensures
            r.offset == old(self).offset + field_length,
            r.raw@ == old(self).raw@,
            *final(self) == *final(r),
    {
        self.offset = self.offset + field_length;
        self
    }

    /// Reads the next field of `field_length` bytes as a literal of `T`, and
    /// moves past it.
    pub fn parse_number<T: FieldValue>(&mut self, field_length: usize) -> (r: Result<T, EdfError>)
        ensures
            final(self).raw@ == old(self).raw@,
            old(self).offset + field_length > old(self).raw@.len() ==> r == Err::<T, EdfError>(
                EdfError::OutOfData,
            ) && final(self).offset == old(self).offset,
            old(self).offset + field_length <= old(self).raw@.len() ==> {
                let v = field_number::<T>(
                    old(self).raw@,
                    old(self).offset as int,
                    field_length as int,
                );
                &&& final(self).offset == old(self).offset + field_length
                &&& v matches Some(x) ==> r == Ok::<T, EdfError>(x)
                &&& v is None ==> r == Err::<T, EdfError>(EdfError::MalformedNumber)
            },
    {
        if !self.check_capacity(field_length) {
            return Err(EdfError::OutOfData);
        }
        let start = self.offset;
        let end = self.offset + field_length;
        self.offset = end;
        match field_string(&self.raw, start, end) {
            Some(s) => {
                let bytes = s.as_str().as_bytes_vec();
                assert(bytes@.subrange(0, bytes@.len() as int) =~= bytes@);
                match T::from_field(&bytes, 0, bytes.len()) {
                    Some(v) => Ok(v),
                    None => Err(EdfError::MalformedNumber),
                }
            },
            None => Err(EdfError::MalformedNumber),
        }
    }
    /// Reads `list_size` consecutive text fields of `field_length` bytes each.
    pub fn parse_string_list(&mut self, list_size: u64, field_length: usize) -> (r: Result<
        Vec<String>,
        EdfError,
    >)
        ensures
            final(self).raw@ == old(self).raw@,
            old(self).offset + list_size * field_length > old(self).raw@.len() ==> r == Err::<
                Vec<String>,
                EdfError,
            >(EdfError::OutOfData) && final(self).offset == old(self).offset,
            old(self).offset + list_size * field_length <= old(self).raw@.len() ==> {
                let texts_ok = forall|i: int|
                    0 <= i < list_size ==> #[trigger] nth_ok(
                        old(self).raw@,
                        old(self).offset as int,
                        field_length as int,
                        i,
                    );
                &&& final(self).offset == old(self).offset + list_size * field_length
                &&& texts_ok ==> (r matches Ok(v) && v@.len() == list_size && forall|i: int|
                    0 <= i < list_size ==> #[trigger] v@[i]@ == nth_text(
                        old(self).raw@,
                        old(self).offset as int,
                        field_length as int,
                        i,
                    ))
                &&& !texts_ok ==> r == Err::<Vec<String>, EdfError>(EdfError::MalformedText)
            },
    {
        let len = self.raw.len();
        assert((list_size as u128) * (field_length as u128) <= 0xffff_ffff_ffff_ffffu128
            * 0xffff_ffff_ffff_ffffu128) by (nonlinear_arith)
            requires
                list_size <= 0xffff_ffff_ffff_ffffu64,
                field_length <= 0xffff_ffff_ffff_ffffu64,
        ;
        let total: u128 = (list_size as u128) * (field_length as u128);
        if self.offset > len || total > (len - self.offset) as u128 {
            return Err(EdfError::OutOfData);
        }
        let ghost raw = self.raw@;
        let ghost start = self.offset as int;
        let ghost n = field_length as int;
        let end = self.offset + total as usize;
        let mut out: Vec<String> = Vec::new();
        let mut i: u64 = 0;
        while i < list_size
            invariant
                self.raw@ == raw,
                raw == old(self).raw@,
                start == old(self).offset,
                n == field_length,
                0 <= i <= list_size,
                start + list_size * n <= raw.len(),
                end == start + list_size * n,
                self.offset == start + i * n,
                out@.len() == i,
                forall|k: int| 0 <= k < i ==> #[trigger] nth_ok(raw, start, n, k),
                forall|k: int| 0 <= k < i ==> #[trigger] out@[k]@ == nth_text(raw, start, n, k),
            decreases list_size - i,
        {
            proof {
                lemma_step(start, n, i as int, list_size as int);
            }
            match self.parse_string(field_length) {
                Ok(s) => {
                    out.push(s);
                },
                Err(e) => {
                    assert(nth_ok(raw, start, n, i as int) == field_ok(raw, start + i * n, n));
                    self.offset = end;
                    return Err(e);
                },
            }
            i = i + 1;
        }
        Ok(out)
    }

    /// Reads `list_size` consecutive numeric fields of `field_length` bytes each.
    pub fn parse_number_list<T: FieldValue>(&mut self, list_size: u64, field_length: usize) -> (r:
        Result<Vec<T>, EdfError>)
        ensures
            final(self).raw@ == old(self).raw@,
            old(self).offset + list_size * field_length > old(self).raw@.len() ==> r == Err::<
                Vec<T>,
                EdfError,
            >(EdfError::OutOfData) && final(self).offset == old(self).offset,
            old(self).offset + list_size * field_length <= old(self).raw@.len() ==> {
                let numbers_ok = forall|i: int|
                    0 <= i < list_size ==> (#[trigger] nth_number::<T>(
                        old(self).raw@,
                        old(self).offset as int,
                        field_length as int,
                        i,
                    )) is Some;
                &&& final(self).offset == old(self).offset + list_size * field_length
                &&& numbers_ok ==> (r matches Ok(v) && v@.len() == list_size && forall|i: int|
                    0 <= i < list_size ==> Some(#[trigger] v@[i]) == nth_number::<T>(
                        old(self).raw@,
                        old(self).offset as int,
                        field_length as int,
                        i,
                    ))
                &&& !numbers_ok ==> r == Err::<Vec<T>, EdfError>(EdfError::MalformedNumber)
            },
    {
        let len = self.raw.len();
        assert((list_size as u128) * (field_length as u128) <= 0xffff_ffff_ffff_ffffu128
            * 0xffff_ffff_ffff_ffffu128) by (nonlinear_arith)
            requires
                list_size <= 0xffff_ffff_ffff_ffffu64,
                field_length <= 0xffff_ffff_ffff_ffffu64,
        ;
        let total: u128 = (list_size as u128) * (field_length as u128);
        if self.offset > len || total > (len - self.offset) as u128 {
            return Err(EdfError::OutOfData);
        }
        let ghost raw = self.raw@;
        let ghost start = self.offset as int;
        let ghost n = field_length as int;
        let end = self.offset + total as usize;
        let mut out: Vec<T> = Vec::new();
        let mut i: u64 = 0;
        while i < list_size
            invariant
                self.raw@ == raw,
                raw == old(self).raw@,
                start == old(self).offset,
                n == field_length,
                0 <= i <= list_size,
                start + list_size * n <= raw.len(),
                end == start + list_size * n,
                self.offset == start + i * n,
                out@.len() == i,
                forall|k: int| 0 <= k < i ==> (#[trigger] nth_number::<T>(raw, start, n, k)) is Some,
                forall|k: int|
                    0 <= k < i ==> Some(#[trigger] out@[k]) == nth_number::<T>(raw, start, n, k),
            decreases list_size - i,
        {
            proof {
                lemma_step(start, n, i as int, list_size as int);
            }
            match self.parse_number::<T>(field_length) {
                Ok(v) => {
                    out.push(v);
                },
                Err(e) => {
                    assert(nth_number::<T>(raw, start, n, i as int) == field_number::<T>(raw, start + i * n, n));
                    self.offset = end;
                    return Err(e);
                },
            }
            i = i + 1;
        }
        Ok(out)
    }
}

/// Field `i` of a run of fields of width `n` starting at `start` is valid UTF-8.
pub open spec fn nth_ok(raw: Seq<u8>, start: int, n: int, i: int) -> bool {
    field_ok(raw, start + i * n, n)
}

/// The trimmed text of field `i` of a run of fields of width `n` starting at `start`.
pub open spec fn nth_text(raw: Seq<u8>, start: int, n: int, i: int) -> Seq<char> {
    field_text(raw, start + i * n, n)
}

/// The value that field `i` of a run of fields of width `n` starting at `start` holds.
pub open spec fn nth_number<T: FieldValue>(raw: Seq<u8>, start: int, n: int, i: int) -> Option<T> {
    field_number::<T>(raw, start + i * n, n)
}

proof fn lemma_step(start: int, n: int, i: int, count: int)
    requires
        0 <= i < count,
        0 <= n,
    ensures
        start + i * n + n == start + (i + 1) * n,
        start + (i + 1) * n <= start + count * n,
{
    assert((i + 1) * n == i * n + n) by (nonlinear_arith);
    assert((i + 1) * n <= count * n) by (nonlinear_arith)
        requires
            i + 1 <= count,
            0 <= n,
    ;
}

// ---------------------------------------------------------------- field widths

proof fn lemma_encode_concat(x: Seq<char>, y: Seq<char>)
    ensures
        encode_utf8(x + y) == encode_utf8(x) + encode_utf8(y),
    decreases x.len(),
{
    if x.len() == 0 {
        assert(x + y =~= y);
        assert(encode_utf8(x) + encode_utf8(y) =~= encode_utf8(y));
    } else {
        assert((x + y).drop_first() =~= x.drop_first() + y);
        assert((x + y)[0] == x[0]);
        lemma_encode_concat(x.drop_first(), y);
        assert(encode_scalar(x[0] as u32) + (encode_utf8(x.drop_first()) + encode_utf8(y))
            =~= (encode_scalar(x[0] as u32) + encode_utf8(x.drop_first())) + encode_utf8(y));
    }
}

proof fn lemma_trim_front_encoded_len(s: Seq<char>)
    ensures
        encode_utf8(trim_front(s)).len() <= encode_utf8(s).len(),
    decreases s.len(),
{
    if s.len() > 0 && is_white(s[0]) {
        lemma_trim_front_encoded_len(s.drop_first());
    }
}

proof fn lemma_trim_back_encoded_len(s: Seq<char>)
    ensures
        encode_utf8(trim_back(s)).len() <= encode_utf8(s).len(),
    decreases s.len(),
{
    if s.len() > 0 && is_white(s.last()) {
        lemma_trim_back_encoded_len(s.drop_last());
        assert(s =~= s.drop_last() + seq![s.last()]);
        lemma_encode_concat(s.drop_last(), seq![s.last()]);
    }
}

/// The trimmed text of a field takes at most the field's width in bytes.
pub proof fn lemma_field_bytes_len(raw: Seq<u8>, offset: int, n: int)
    requires
        0 <= offset,
        0 <= n,
        offset + n <= raw.len(),
        field_ok(raw, offset, n),
    ensures
        field_bytes(raw, offset, n).len() <= n,
{
    reveal(field_text);
    let b = raw.subrange(offset, offset + n);
    vstd::utf8::decode_utf8_encode_utf8(b);
    lemma_trim_front_encoded_len(decode_utf8(b));
    lemma_trim_back_encoded_len(trim_front(decode_utf8(b)));
}

// ---------------------------------------------------------------- writing fields

/// `n` spaces.
pub open spec fn spaces(n: nat) -> Seq<char> {
    Seq::new(n, |i: int| ' ')
}

/// The text `t` followed by `k` spaces, as a field is written.
pub open spec fn padded(t: Seq<char>, k: nat) -> Seq<char> {
    t + spaces(k)
}

/// `t` neither starts nor ends with whitespace.
pub open spec fn no_outer_white(t: Seq<char>) -> bool {
    t.len() > 0 ==> !is_white(t[0]) && !is_white(t.last())
}

/// The decimal digits of `v`, most significant first.
pub open spec fn decimal_digits(v: nat) -> Seq<u8>
    decreases v,
{
    if v < 10 {
        seq![(48 + v) as u8]
    } else {
        decimal_digits(v / 10).push((48 + v % 10) as u8)
    }
}

/// The decimal digits of `v` as characters.
pub open spec fn digit_chars(v: nat) -> Seq<char> {
    decimal_digits(v).map_values(|b: u8| b as char)
}

proof fn lemma_trim_front_spaces(n: nat)
    ensures
        trim_front(spaces(n)).len() == 0,
    decreases n,
{
    if n > 0 {
        assert(spaces(n).drop_first() =~= spaces((n - 1) as nat));
        lemma_trim_front_spaces((n - 1) as nat);
    }
}

proof fn lemma_trim_back_padding(t: Seq<char>, k: nat)
    requires
        t.len() > 0,
        !is_white(t.last()),
    ensures
        trim_back(t + spaces(k)) == t,
    decreases k,
{
    if k == 0 {
        assert(t + spaces(0) =~= t);
    } else {
        assert((t + spaces(k)).drop_last() =~= t + spaces((k - 1) as nat));
        lemma_trim_back_padding(t, (k - 1) as nat);
    }
}

proof fn lemma_trim_padded(t: Seq<char>, k: nat)
    requires
        no_outer_white(t),
    ensures
        trim(padded(t, k)) == t,
{
    if t.len() == 0 {
        assert(padded(t, k) =~= spaces(k));
        lemma_trim_front_spaces(k);
        assert(trim_front(spaces(k)) =~= Seq::<char>::empty());
    } else {
        assert(padded(t, k)[0] == t[0]);
        assert(trim_front(padded(t, k)) == padded(t, k));
        lemma_trim_back_padding(t, k);
    }
}

/// A text without surrounding whitespace, written into a field in UTF-8 and
/// padded with spaces, reads back unchanged.
pub proof fn lemma_text_field_round_trip(raw: Seq<u8>, offset: int, n: int, t: Seq<char>, k: nat)
    requires
        0 <= offset,
        0 <= n,
        offset + n <= raw.len(),
        raw.subrange(offset, offset + n) == encode_utf8(padded(t, k)),
        no_outer_white(t),
    ensures
        field_ok(raw, offset, n),
        field_text(raw, offset, n) == t,
{
    reveal(field_text);
    vstd::utf8::encode_utf8_valid_utf8(padded(t, k));
    encode_utf8_decode_utf8(padded(t, k));
    lemma_trim_padded(t, k);
}

proof fn lemma_decimal_digits(v: nat)
    ensures
        decimal_digits(v).len() > 0,
        all_digits(decimal_digits(v)),
        digits_value(decimal_digits(v)) == v,
    decreases v,
{
    let d = decimal_digits(v);
    if v >= 10 {
        lemma_decimal_digits(v / 10);
        let p = decimal_digits(v / 10);
        assert(d.drop_last() =~= p);
        assert forall|i: int| 0 <= i < d.len() implies is_digit(#[trigger] d[i]) by {
            if i < p.len() {
                assert(d[i] == p[i]);
            }
        }
        assert(d.last() == (48 + v % 10) as u8);
        vstd::arithmetic::div_mod::lemma_fundamental_div_mod(v as int, 10);
        assert(digits_value(d) == digits_value(p) * 10 + v % 10);
    } else {
        assert(d.drop_last() =~= Seq::<u8>::empty());
        assert(digits_value(d) == digits_value(d.drop_last()) * 10 + (d.last() - 48) as nat);
    }
}

/// An unsigned number written in decimal into a field and padded with spaces
/// reads back as the same number.
pub proof fn lemma_number_field_round_trip(raw: Seq<u8>, offset: int, n: int, v: nat, k: nat)
    requires
        0 <= offset,
        0 <= n,
        offset + n <= raw.len(),
        raw.subrange(offset, offset + n) == encode_utf8(padded(digit_chars(v), k)),
        v <= u64::MAX,
    ensures
        field_number::<u64>(raw, offset, n) == Some(v as u64),
{
    let d = decimal_digits(v);
    let c = digit_chars(v);
    lemma_decimal_digits(v);
    assert(no_outer_white(c)) by {
        assert(is_digit(d[0]));
        assert(is_digit(d[d.len() - 1]));
    }
    lemma_text_field_round_trip(raw, offset, n, c, k);
    assert(vstd::utf8::is_ascii_chars(c)) by {
        assert forall|i: int| 0 <= i < c.len() implies '\0' <= #[trigger] c[i] <= '\u{7f}' by {
            assert(is_digit(d[i]));
        }
    }
    vstd::utf8::is_ascii_chars_encode_utf8(c);
    assert(encode_utf8(c) =~= d);
}

} // verus!
