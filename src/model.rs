//! Metadata of an EDF file: the main header, one record per channel, and the
//! quantities derived from them.
use vstd::prelude::*;
use vstd::string::StrSliceExecFns;
use vstd::utf8::encode_utf8;
use crate::decimal::{
    Decimal, MAX_DIGITS, decimal_literal, dotted, find_dot, lemma_dotted_value,
    lemma_pow10_mono, pow10_exec,
};
use crate::error::EdfError;
use crate::parser::{
    FieldValue, Parser, after_sign, all_digits, digits_value, field_bytes, field_number, field_ok,
    field_text, lemma_digits_value_bound, lemma_field_bytes_len, nth_number, nth_ok, nth_text,
    pow10, signed_literal, unsigned_literal,
};

verus! {

/// Size of the main header, and of the block of fields of one channel.
pub const EDF_HEADER_BYTE_SIZE: usize = 256;

/// Largest magnitude (exclusive) that an eight-byte numeric field can hold.
pub open spec fn field_limit() -> int {
    100000000
}

/// The number `numerator / denominator`.
#[derive(Debug, Clone, Copy, PartialEq, Eq, Structural)]
pub struct Ratio {
    pub numerator: i128,
    pub denominator: i128,
}

/// Two fractions `a / b` and `c / d` denote the same number.
pub open spec fn same_value(a: int, b: int, c: int, d: int) -> bool {
    a * d == c * b
}

/// One recorded signal.
#[derive(Debug, Clone, PartialEq)]
pub struct EDFChannel {
    pub label: String,
    pub transducter_type: String,
    pub physical_dimension: String,
    pub physical_minimum: Decimal,
    pub physical_maximum: Decimal,
    pub digital_minimum: i64,
    pub digital_maximum: i64,
    pub prefiltering: String,
    pub number_of_samples_in_data_record: u64,
    pub scale_factor: Ratio,
}

pub open spec fn max_nat(a: nat, b: nat) -> nat {
    if a >= b {
        a
    } else {
        b
    }
}

impl EDFChannel {
    /// The power of ten that both physical bounds are written over.
    pub open spec fn common_scale(&self) -> nat {
        max_nat(self.physical_minimum.scale as nat, self.physical_maximum.scale as nat)
    }

    /// The physical minimum times `10^common_scale`.
    pub open spec fn low(&self) -> int {
        self.physical_minimum.mantissa * pow10(
            (self.common_scale() - self.physical_minimum.scale) as nat,
        )
    }

    /// The physical maximum times `10^common_scale`.
    pub open spec fn high(&self) -> int {
        self.physical_maximum.mantissa * pow10(
            (self.common_scale() - self.physical_maximum.scale) as nat,
        )
    }

    pub open spec fn digital_span(&self) -> int {
        self.digital_maximum - self.digital_minimum
    }

    /// `10^common_scale * (digital_max - digital_min)`: the denominator of the
    /// scale factor and of every converted sample.
    pub open spec fn unit_denominator(&self) -> int {
        pow10(self.common_scale()) * self.digital_span()
    }

    /// Numerator of `(physical_max - physical_min) / (digital_max - digital_min)`
    /// over `unit_denominator`.
    pub open spec fn scale_numerator(&self) -> int {
        self.high() - self.low()
    }

    /// Numerator of `(s - digital_min) * scale_factor + physical_min` over
    /// `unit_denominator`.
    pub open spec fn physical_numerator(&self, s: int) -> int {
        self.low() * self.digital_span() + (s - self.digital_minimum) * self.scale_numerator()
    }

    /// What decoding eight-byte fields guarantees of a channel.
    pub open spec fn wf(&self) -> bool {
        &&& self.fields_in_range()
        &&& self.scale_factor.numerator == self.scale_numerator()
        &&& self.scale_factor.denominator == self.unit_denominator()
    }

    /// Every numeric field has at most eight characters, and the digital range is not empty.
    pub open spec fn fields_in_range(&self) -> bool {
        &&& -field_limit() < self.physical_minimum.mantissa < field_limit()
        &&& -field_limit() < self.physical_maximum.mantissa < field_limit()
        &&& self.physical_minimum.scale < 8
        &&& self.physical_maximum.scale < 8
        &&& -field_limit() < self.digital_minimum < field_limit()
        &&& -field_limit() < self.digital_maximum < field_limit()
        &&& self.digital_minimum != self.digital_maximum
        &&& self.number_of_samples_in_data_record < field_limit()
    }

    /// Converts a raw sample to physical units, exactly.
    pub fn to_physical(&self, sample: i16) -> (r: Ratio)
        requires
            self.wf(),
        ensures
            r.numerator == self.physical_numerator(sample as int),
            r.denominator == self.unit_denominator(),
    {
        let (low, high, unit) = self.scaled_bounds();
        let span = self.digital_maximum as i128 - self.digital_minimum as i128;
        let offset = sample as i128 - self.digital_minimum as i128;
        proof {
            lemma_physical_bounds(low as int, high as int, span as int, offset as int, unit as int);
        }
        Ratio { numerator: low * span + offset * (high - low), denominator: unit * span }
    }

    /// `(low, high, 10^common_scale)`.
    fn scaled_bounds(&self) -> (r: (i128, i128, i128))
        requires
            self.fields_in_range(),
        ensures
            r.0 == self.low(),
            r.1 == self.high(),
            r.2 == pow10(self.common_scale()),
            -1000000000000000 < r.0 < 1000000000000000,
            -1000000000000000 < r.1 < 1000000000000000,
            0 < r.2 <= 10000000,
    {
        let smin = self.physical_minimum.scale;
        let smax = self.physical_maximum.scale;
        let e = if smin >= smax {
            smin
        } else {
            smax
        };
        let pe = pow10_exec(e as usize);
        let pmin = pow10_exec((e - smin) as usize);
        let pmax = pow10_exec((e - smax) as usize);
        proof {
            reveal_with_fuel(pow10, 8);
            lemma_pow10_mono(e as nat, 7);
            lemma_pow10_mono((e - smin) as nat, 7);
            lemma_pow10_mono((e - smax) as nat, 7);
            lemma_scaled_mantissa(self.physical_minimum.mantissa as int, pmin as int);
            lemma_scaled_mantissa(self.physical_maximum.mantissa as int, pmax as int);
        }
        (
            self.physical_minimum.mantissa as i128 * pmin as i128,
            self.physical_maximum.mantissa as i128 * pmax as i128,
            pe as i128,
        )
    }

    /// Builds a channel from its decoded fields, with its scale factor.
    fn assemble(
        label: String,
        transducter_type: String,
        physical_dimension: String,
        physical_minimum: Decimal,
        physical_maximum: Decimal,
        digital_minimum: i64,
        digital_maximum: i64,
        prefiltering: String,
        number_of_samples_in_data_record: u64,
    ) -> (r: EDFChannel)
        requires
            -field_limit() < physical_minimum.mantissa < field_limit(),
            -field_limit() < physical_maximum.mantissa < field_limit(),
            physical_minimum.scale < 8,
            physical_maximum.scale < 8,
            -field_limit() < digital_minimum < field_limit(),
            -field_limit() < digital_maximum < field_limit(),
            digital_minimum != digital_maximum,
            number_of_samples_in_data_record < field_limit(),
        ensures
            r.wf(),
            r.label == label,
            r.transducter_type == transducter_type,
            r.physical_dimension == physical_dimension,
            r.physical_minimum == physical_minimum,
            r.physical_maximum == physical_maximum,
            r.digital_minimum == digital_minimum,
            r.digital_maximum == digital_maximum,
            r.prefiltering == prefiltering,
            r.number_of_samples_in_data_record == number_of_samples_in_data_record,
    {
        let mut c = EDFChannel {
            label,
            transducter_type,
            physical_dimension,
            physical_minimum,
            physical_maximum,
            digital_minimum,
            digital_maximum,
            prefiltering,
            number_of_samples_in_data_record,
            scale_factor: Ratio { numerator: 0, denominator: 1 },
        };
        let (low, high, unit) = c.scaled_bounds();
        let span = digital_maximum as i128 - digital_minimum as i128;
        proof {
            lemma_physical_bounds(low as int, high as int, span as int, 0, unit as int);
        }
        c.scale_factor = Ratio { numerator: high - low, denominator: unit * span };
        c
    }
}

pub proof fn lemma_pow10_add(a: nat, b: nat)
    ensures
        pow10(a + b) == pow10(a) * pow10(b),
    decreases a,
{
    if a > 0 {
        lemma_pow10_add((a - 1) as nat, b);
        assert(pow10(a + b) == 10 * pow10((a - 1 + b) as nat));
        assert(10 * (pow10((a - 1) as nat) * pow10(b)) == (10 * pow10((a - 1) as nat)) * pow10(b))
            by (nonlinear_arith);
    } else {
        assert(a + b == b);
        assert(pow10(0) == 1);
        assert(1 * pow10(b) == pow10(b));
    }
}

/// The scale factor of a channel is `(physical_max - physical_min) / (digital_max -
/// digital_min)`; converting the digital minimum gives the physical minimum, and
/// converting the digital maximum gives the physical maximum, all exactly.
pub proof fn lemma_scale_factor_endpoints(c: EDFChannel)
    requires
        c.wf(),
    ensures
        c.scale_factor.denominator != 0,
        same_value(
            c.scale_factor.numerator as int,
            c.scale_factor.denominator as int,
            c.physical_maximum.mantissa * pow10(c.physical_minimum.scale as nat)
                - c.physical_minimum.mantissa * pow10(c.physical_maximum.scale as nat),
            pow10(c.physical_minimum.scale as nat) * pow10(c.physical_maximum.scale as nat) * (
            c.digital_maximum - c.digital_minimum),
        ),
        same_value(
            c.physical_numerator(c.digital_minimum as int),
            c.unit_denominator(),
            c.physical_minimum.mantissa as int,
            pow10(c.physical_minimum.scale as nat) as int,
        ),
        same_value(
            c.physical_numerator(c.digital_maximum as int),
            c.unit_denominator(),
            c.physical_maximum.mantissa as int,
            pow10(c.physical_maximum.scale as nat) as int,
        ),
{
    let e = c.common_scale();
    let sm = c.physical_minimum.scale as nat;
    let sx = c.physical_maximum.scale as nat;
    let p = pow10(e) as int;
    let pm = pow10(sm) as int;
    let px = pow10(sx) as int;
    let qm = pow10((e - sm) as nat) as int;
    let qx = pow10((e - sx) as nat) as int;
    let mm = c.physical_minimum.mantissa as int;
    let mx = c.physical_maximum.mantissa as int;
    let d = c.digital_span();
    lemma_pow10_add((e - sm) as nat, sm);
    lemma_pow10_add((e - sx) as nat, sx);
    lemma_pow10_mono(0, e);
    assert(((e - sm) as nat + sm) as nat == e);
    assert(((e - sx) as nat + sx) as nat == e);
    assert(p == qm * pm);
    assert(p == qx * px);
    assert(p * d != 0) by (nonlinear_arith)
        requires
            p >= 1,
            d != 0,
    ;
    assert(c.physical_numerator(c.digital_minimum as int) == mm * qm * d);
    assert(mm * qm * d * pm == mm * (p * d)) by (nonlinear_arith)
        requires
            p == qm * pm,
    ;
    assert(c.physical_numerator(c.digital_maximum as int) == mm * qm * d + d * (mx * qx - mm * qm))
        by (nonlinear_arith)
        requires
            c.low() == mm * qm,
            c.high() == mx * qx,
            c.digital_maximum - c.digital_minimum == d,
            c.physical_numerator(c.digital_maximum as int) == c.low() * d + (c.digital_maximum
                - c.digital_minimum) * (c.high() - c.low()),
    ;
    assert((mm * qm * d + d * (mx * qx - mm * qm)) * px == mx * (p * d)) by (nonlinear_arith)
        requires
            p == qx * px,
    ;
    let z = pm * px * d;
    assert((mx * qx - mm * qm) * z == mx * qx * z - mm * qm * z) by (nonlinear_arith);
    lemma_regroup(mx, qx, px, pm, d, p);
    lemma_regroup(mm, qm, pm, px, d, p);
    assert(pm * px * d == px * pm * d) by (nonlinear_arith);
    assert((mx * pm - mm * px) * (p * d) == mx * pm * (p * d) - mm * px * (p * d))
        by (nonlinear_arith);
    assert(mx * pm * (p * d) == mx * p * pm * d) by (nonlinear_arith);
    assert(mm * px * (p * d) == mm * p * px * d) by (nonlinear_arith);
}

proof fn lemma_regroup(m: int, q: int, x: int, y: int, d: int, p: int)
    requires
        q * x == p,
    ensures
        m * q * (y * x * d) == m * p * y * d,
{
    assert(m * q * (y * x * d) == m * (q * x) * y * d) by (nonlinear_arith);
}

proof fn lemma_scaled_mantissa(m: int, p: int)
    requires
        -100000000 < m < 100000000,
        1 <= p <= 10000000,
    ensures
        -1000000000000000 < m * p < 1000000000000000,
{
    assert(-100000000 * p < m * p < 100000000 * p) by (nonlinear_arith)
        requires
            -100000000 < m < 100000000,
            1 <= p,
    ;
}

proof fn lemma_physical_bounds(low: int, high: int, span: int, offset: int, unit: int)
    requires
        0 < unit <= 10000000,
        -1000000000000000 < low < 1000000000000000,
        -1000000000000000 < high < 1000000000000000,
        -200000000 < span < 200000000,
        -300000000 < offset < 300000000,
    ensures
        -1000000000000000000000000 < low * span < 1000000000000000000000000,
        -1000000000000000000000000 < offset * (high - low) < 1000000000000000000000000,
        -10000000000000000 < unit * span < 10000000000000000,
{
    assert(-10000000000000000 < unit * span < 10000000000000000) by (nonlinear_arith)
        requires
            0 < unit <= 10000000,
            -200000000 < span < 200000000,
    ;
    assert(-1000000000000000000000000 < low * span < 1000000000000000000000000)
        by (nonlinear_arith)
        requires
            -1000000000000000 < low < 1000000000000000,
            -200000000 < span < 200000000,
    ;
    assert(-1000000000000000000000000 < offset * (high - low) < 1000000000000000000000000)
        by (nonlinear_arith)
        requires
            -2000000000000000 < high - low < 2000000000000000,
            -300000000 < offset < 300000000,
    ;
}

// ---------------------------------------------------------------- field widths

/// A field holds at most as many bytes as its width.
pub proof fn lemma_field_len(raw: Seq<u8>, start: int, n: int, i: int)
    requires
        0 <= n,
        0 <= start + i * n,
        start + i * n + n <= raw.len(),
        nth_ok(raw, start, n, i),
    ensures
        field_bytes(raw, start + i * n, n).len() <= n,
{
    lemma_field_bytes_len(raw, start + i * n, n);
}

/// An unsigned literal of at most `w <= 8` characters is below `10^w`.
pub proof fn lemma_unsigned_width(t: Seq<u8>, w: nat)
    requires
        t.len() <= w <= 8,
        unsigned_literal(t) is Some,
    ensures
        unsigned_literal(t)->0 < pow10(w),
        pow10(w) <= field_limit(),
{
    let body = after_sign(t, 43);
    lemma_digits_value_bound(body);
    lemma_pow10_mono(body.len(), w);
    lemma_pow10_mono(w, 8);
    reveal_with_fuel(pow10, 9);
}

/// A signed literal of at most eight characters lies strictly between `-10^8` and `10^8`.
pub proof fn lemma_signed_width(t: Seq<u8>)
    requires
        t.len() <= 8,
        signed_literal(t) is Some,
    ensures
        -field_limit() < signed_literal(t)->0 < field_limit(),
{
    if t.len() > 0 && t[0] == 45 {
        lemma_digits_value_bound(t.drop_first());
        lemma_pow10_mono(t.drop_first().len(), 8);
        reveal_with_fuel(pow10, 9);
    } else {
        lemma_unsigned_width(t, 8);
    }
}

/// A decimal literal of at most eight characters has a mantissa below `10^8`
/// in magnitude and fewer than eight digits after its dot.
pub proof fn lemma_decimal_width(t: Seq<u8>)
    requires
        t.len() <= 8,
        decimal_literal(t) is Some,
    ensures
        ({
            let (m, scale) = decimal_literal(t)->0;
            -field_limit() < m < field_limit() && scale < 8
        }),
{
    let signed = t.len() > 0 && (t[0] == 43 || t[0] == 45);
    let b = if signed {
        t.drop_first()
    } else {
        t
    };
    reveal_with_fuel(pow10, 9);
    if 0 < b.len() <= MAX_DIGITS && all_digits(b) {
        lemma_digits_value_bound(b);
        lemma_pow10_mono(b.len(), 8);
    } else {
        let k = choose|k: int| dotted(b, k);
        lemma_dotted_value(b, k);
        let left = b.subrange(0, k);
        let right = b.subrange(k + 1, b.len() as int);
        lemma_digits_value_bound(left);
        lemma_digits_value_bound(right);
        lemma_pow10_mono(left.len() + right.len(), 8);
        crate::model::lemma_pow10_add(left.len(), right.len());
        assert(digits_value(left) * pow10(right.len()) + digits_value(right) < pow10(left.len())
            * pow10(right.len())) by (nonlinear_arith)
            requires
                digits_value(left) < pow10(left.len()),
                digits_value(right) < pow10(right.len()),
        ;
    }
}

// ---------------------------------------------------------------- the start instant

/// The UTC instant, in milliseconds since the Unix epoch, of a calendar date and
/// time of day; none when they name no instant.
pub uninterp spec fn utc_millis(year: i32, month: u32, day: u32, hour: u32, minute: u32, second: u32) -> Option<i64>;

/// Relies on chrono's `TimeZone::with_ymd_and_hms` for `Utc`, then
/// `DateTime::timestamp_millis`: the instant depends on the six numbers alone.
#[verifier::external_body]
fn utc_timestamp_millis(year: i32, month: u32, day: u32, hour: u32, minute: u32, second: u32) -> (r:
    Option<i64>)
    ensures
        r == utc_millis(year, month, day, hour, minute, second),
{
    chrono::TimeZone::with_ymd_and_hms(&chrono::Utc, year, month, day, hour, minute, second)
        .single()
        .map(|t| t.timestamp_millis())
}

/// Index of the first dot of `t`, or its length if it has none.
pub open spec fn first_dot(t: Seq<u8>) -> int
    decreases t.len(),
{
    if t.len() == 0 {
        0
    } else if t[0] == 46 {
        0
    } else {
        1 + first_dot(t.drop_first())
    }
}

proof fn lemma_first_dot(t: Seq<u8>, k: int)
    requires
        0 <= k <= t.len(),
        forall|i: int| 0 <= i < k ==> t[i] != 46,
        k < t.len() ==> t[k] == 46,
    ensures
        first_dot(t) == k,
    decreases k,
{
    if k > 0 {
        lemma_first_dot(t.drop_first(), k - 1);
    }
}

pub open spec fn u32_literal(t: Seq<u8>) -> Option<u32> {
    match unsigned_literal(t) {
        Some(v) => if v <= u32::MAX { Some(v as u32) } else { None },
        None => None,
    }
}

/// Three unsigned numbers separated by dots: `a.b.c`.
pub open spec fn dotted_triple(t: Seq<u8>) -> Option<(u32, u32, u32)> {
    let i = first_dot(t);
    let rest = t.subrange(i + 1, t.len() as int);
    let j = first_dot(rest);
    if i < t.len() && j < rest.len() {
        match (
            u32_literal(t.subrange(0, i)),
            u32_literal(rest.subrange(0, j)),
            u32_literal(rest.subrange(j + 1, rest.len() as int)),
        ) {
            (Some(a), Some(b), Some(c)) => Some((a, b, c)),
            _ => None,
        }
    } else {
        None
    }
}

/// The start of the recording in milliseconds since the Unix epoch, from the
/// trimmed `dd.mm.yy` date and `hh.mm.ss` time; zero when either is empty.
pub open spec fn start_instant(date: Seq<u8>, time: Seq<u8>) -> Option<i64> {
    if date.len() == 0 || time.len() == 0 {
        Some(0)
    } else {
        match (dotted_triple(date), dotted_triple(time)) {
            (Some((day, month, year)), Some((hour, minute, second))) => if year <= i32::MAX - 2000 {
                utc_millis((2000 + year) as i32, month, day, hour, minute, second)
            } else {
                None
            },
            _ => None,
        }
    }
}

fn u32_at(raw: &Vec<u8>, lo: usize, hi: usize) -> (r: Option<u32>)
    requires
        lo <= hi <= raw@.len(),
    ensures
        r == u32_literal(raw@.subrange(lo as int, hi as int)),
{
    match u64::from_field(raw, lo, hi) {
        Some(v) => if v <= 0xffff_ffff {
            Some(v as u32)
        } else {
            None
        },
        None => None,
    }
}

fn dotted_triple_at(raw: &Vec<u8>, lo: usize, hi: usize) -> (r: Option<(u32, u32, u32)>)
    requires
        lo <= hi <= raw@.len(),
    ensures
        r == dotted_triple(raw@.subrange(lo as int, hi as int)),
{
    let ghost t = raw@.subrange(lo as int, hi as int);
    let i = find_dot(raw, lo, hi);
    proof {
        lemma_first_dot(t, i - lo);
    }
    if i == hi {
        return None;
    }
    let ghost rest = t.subrange(i - lo + 1, t.len() as int);
    assert(rest =~= raw@.subrange(i + 1, hi as int));
    let j = find_dot(raw, i + 1, hi);
    proof {
        lemma_first_dot(rest, j - i - 1);
    }
    if j == hi {
        return None;
    }
    assert(t.subrange(0, i - lo) =~= raw@.subrange(lo as int, i as int));
    assert(rest.subrange(0, j - i - 1) =~= raw@.subrange(i + 1, j as int));
    assert(rest.subrange(j - i, rest.len() as int) =~= raw@.subrange(j + 1, hi as int));
    let a = u32_at(raw, lo, i);
    let b = u32_at(raw, i + 1, j);
    let c = u32_at(raw, j + 1, hi);
    match (a, b, c) {
        (Some(a), Some(b), Some(c)) => Some((a, b, c)),
        _ => None,
    }
}

/// The start instant of the recording from the trimmed date and time texts.
fn create_start_time(date: &String, time: &String) -> (r: Result<i64, EdfError>)
    ensures
        start_instant(encode_utf8(date@), encode_utf8(time@)) matches Some(v) ==> r == Ok::<
            i64,
            EdfError,
        >(v),
        start_instant(encode_utf8(date@), encode_utf8(time@)) is None ==> r == Err::<
            i64,
            EdfError,
        >(EdfError::MalformedDate),
{
    let d = date.as_str().as_bytes_vec();
    let t = time.as_str().as_bytes_vec();
    if d.len() == 0 || t.len() == 0 {
        return Ok(0);
    }
    assert(d@.subrange(0, d@.len() as int) =~= d@);
    assert(t@.subrange(0, t@.len() as int) =~= t@);
    match (dotted_triple_at(&d, 0, d.len()), dotted_triple_at(&t, 0, t.len())) {
        (Some((day, month, year)), Some((hour, minute, second))) => {
            if year > 2147481647 {
                return Err(EdfError::MalformedDate);
            }
            match utc_timestamp_millis((2000 + year) as i32, month, day, hour, minute, second) {
                Some(ms) => Ok(ms),
                None => Err(EdfError::MalformedDate),
            }
        },
        _ => Err(EdfError::MalformedDate),
    }
}

// ---------------------------------------------------------------- the header

/// The main header of an EDF file and its channels.
#[derive(Debug, Clone, PartialEq)]
pub struct EDFHeader {
    pub file_version: String,
    pub local_patient_identification: String,
    pub local_recording_identification: String,
    pub start_date: String,
    pub start_time: String,
    pub record_start_time_in_ms: i64,
    pub byte_size_header: u64,
    pub number_of_blocks: u64,
    /// Duration of one data block, in milliseconds.
    pub block_duration: u64,
    pub number_of_signals: u64,
    pub channels: Vec<EDFChannel>,
}

/// The unsigned number in the field of width `w` at `off`, zero if there is none.
pub open spec fn number_at(d: Seq<u8>, off: int, w: int) -> u64 {
    match field_number::<u64>(d, off, w) {
        Some(v) => v,
        None => 0,
    }
}

/// Every text field of the main header is valid UTF-8.
pub open spec fn general_texts_ok(d: Seq<u8>) -> bool {
    &&& field_ok(d, 0, 8)
    &&& field_ok(d, 8, 80)
    &&& field_ok(d, 88, 80)
    &&& field_ok(d, 168, 8)
    &&& field_ok(d, 176, 8)
}

/// Every numeric field of the main header holds an unsigned literal.
pub open spec fn general_numbers_ok(d: Seq<u8>) -> bool {
    &&& field_number::<u64>(d, 184, 8) is Some
    &&& field_number::<u64>(d, 236, 8) is Some
    &&& field_number::<u64>(d, 244, 8) is Some
    &&& field_number::<u64>(d, 252, 4) is Some
}

pub open spec fn general_start(d: Seq<u8>) -> Option<i64> {
    start_instant(field_bytes(d, 168, 8), field_bytes(d, 176, 8))
}

impl EDFHeader {
    /// The main-header fields of `self` are those written in `d`, and no channel is read yet.
    pub open spec fn general_matches(&self, d: Seq<u8>) -> bool {
        &&& self.general_fields_match(d)
        &&& self.channels@.len() == 0
    }

    /// The main-header fields of `self` are those written in `d`.
    pub open spec fn general_fields_match(&self, d: Seq<u8>) -> bool {
        &&& self.file_version@ == field_text(d, 0, 8)
        &&& self.local_patient_identification@ == field_text(d, 8, 80)
        &&& self.local_recording_identification@ == field_text(d, 88, 80)
        &&& self.start_date@ == field_text(d, 168, 8)
        &&& self.start_time@ == field_text(d, 176, 8)
        &&& Some(self.record_start_time_in_ms) == general_start(d)
        &&& self.byte_size_header == number_at(d, 184, 8)
        &&& self.number_of_blocks == number_at(d, 236, 8)
        &&& self.block_duration == number_at(d, 244, 8) * 1000
        &&& self.number_of_signals == number_at(d, 252, 4)
    }

    /// `self` is the header decoded from the main header `general` and the
    /// channel records `records` that follow it.
    pub open spec fn decoded_from(&self, general: Seq<u8>, records: Seq<u8>) -> bool {
        let n = self.number_of_signals as int;
        &&& self.wf()
        &&& general.len() == 256
        &&& records.len() == 256 * n
        &&& self.general_fields_match(general)
        &&& forall|i: int| 0 <= i < n ==> (#[trigger] self.channels@[i]).matches(records, n, i)
    }

    /// The numbers of the main header are within what their field widths allow.
    pub open spec fn general_wf(&self) -> bool {
        &&& self.byte_size_header < field_limit()
        &&& self.number_of_blocks < field_limit()
        &&& self.block_duration < field_limit() * 1000
        &&& self.number_of_signals < 10000
    }

    /// A fully decoded header: its numbers in range, one well-formed record per channel.
    pub open spec fn wf(&self) -> bool {
        &&& self.general_wf()
        &&& self.channels@.len() == self.number_of_signals
        &&& forall|i: int| 0 <= i < self.channels@.len() ==> (#[trigger] self.channels@[i]).wf()
    }

    /// Decodes the 256-byte main header. The channels are read afterwards, by
    /// `build_channel_headers`.
    pub fn build_general_header(data: Vec<u8>) -> (r: Result<EDFHeader, EdfError>)
        ensures
            data@.len() < EDF_HEADER_BYTE_SIZE ==> r == Err::<EDFHeader, EdfError>(
                EdfError::OutOfData,
            ),
            data@.len() >= EDF_HEADER_BYTE_SIZE ==> {
                &&& !general_texts_ok(data@) ==> r == Err::<EDFHeader, EdfError>(
                    EdfError::MalformedText,
                )
                &&& general_texts_ok(data@) && !general_numbers_ok(data@) ==> r == Err::<
                    EDFHeader,
                    EdfError,
                >(EdfError::MalformedNumber)
                &&& general_texts_ok(data@) && general_numbers_ok(data@) && general_start(data@)
                    is None ==> r == Err::<EDFHeader, EdfError>(EdfError::MalformedDate)
                &&& general_texts_ok(data@) && general_numbers_ok(data@) && general_start(data@)
                    is Some ==> (r matches Ok(h) && h.general_matches(data@) && h.general_wf())
            },
    {
        if data.len() < EDF_HEADER_BYTE_SIZE {
            return Err(EdfError::OutOfData);
        }
        let ghost d = data@;
        let mut parser: Parser = Parser::new(data);
        let file_version = match parser.parse_string(8) {
            Ok(s) => s,
            Err(e) => return Err(e),
        };
        let local_patient_identification = match parser.parse_string(80) {
            Ok(s) => s,
            Err(e) => return Err(e),
        };
        let local_recording_identification = match parser.parse_string(80) {
            Ok(s) => s,
            Err(e) => return Err(e),
        };
        let start_date = match parser.parse_string(8) {
            Ok(s) => s,
            Err(e) => return Err(e),
        };
        let start_time = match parser.parse_string(8) {
            Ok(s) => s,
            Err(e) => return Err(e),
        };
        let byte_size_header = match parser.parse_number::<u64>(8) {
            Ok(v) => v,
            Err(e) => return Err(e),
        };
        let number_of_blocks = match parser.move_offset(44).parse_number::<u64>(8) {
            Ok(v) => v,
            Err(e) => return Err(e),
        };
        let seconds = match parser.parse_number::<u64>(8) {
            Ok(v) => v,
            Err(e) => return Err(e),
        };
        let number_of_signals = match parser.parse_number::<u64>(4) {
            Ok(v) => v,
            Err(e) => return Err(e),
        };
        proof {
            lemma_field_len(d, 184, 8, 0);
            lemma_field_len(d, 236, 8, 0);
            lemma_field_len(d, 244, 8, 0);
            lemma_field_len(d, 252, 4, 0);
            lemma_unsigned_width(field_bytes(d, 184, 8), 8);
            lemma_unsigned_width(field_bytes(d, 236, 8), 8);
            lemma_unsigned_width(field_bytes(d, 244, 8), 8);
            lemma_unsigned_width(field_bytes(d, 252, 4), 4);
            reveal_with_fuel(pow10, 5);
        }
        let record_start_time_in_ms = match create_start_time(&start_date, &start_time) {
            Ok(v) => v,
            Err(e) => return Err(e),
        };
        Ok(EDFHeader {
            file_version,
            local_patient_identification,
            local_recording_identification,
            start_date,
            start_time,
            record_start_time_in_ms,
            byte_size_header,
            number_of_blocks,
            block_duration: seconds * 1000,
            number_of_signals,
            channels: Vec::new(),
        })
    }

    /// The samples per block of the channels before channel `j`, summed.
    pub open spec fn samples_before(&self, j: int) -> int
        decreases j,
    {
        if j <= 0 {
            0
        } else {
            self.samples_before(j - 1) + self.channels@[j - 1].number_of_samples_in_data_record
        }
    }

    /// Samples in one data block, over all channels.
    pub open spec fn samples_per_block(&self) -> int {
        self.samples_before(self.channels@.len() as int)
    }

    /// Bytes in one data block: two per sample.
    pub open spec fn spec_size_of_data_block(&self) -> int {
        2 * self.samples_per_block()
    }

    /// Size in bytes of one data block: the samples per block of every channel,
    /// two bytes each.
    pub fn get_size_of_data_block(&self) -> (r: u64)
        requires
            self.wf(),
        ensures
            r == self.spec_size_of_data_block(),
    {
        let mut total: u64 = 0;
        let mut j: usize = 0;
        while j < self.channels.len()
            invariant
                self.wf(),
                j <= self.channels@.len(),
                total == 2 * self.samples_before(j as int),
                self.samples_before(j as int) <= j * field_limit(),
            decreases self.channels@.len() - j,
        {
            assert(self.channels@[j as int].wf());
            total = total + self.channels[j].number_of_samples_in_data_record * 2;
            j = j + 1;
        }
        total
    }
}

// ---------------------------------------------------------------- channel fields

/// The numbers of channel `i` of `n` are within what their eight-byte fields allow.
proof fn lemma_channel_widths(d: Seq<u8>, n: int, i: int)
    requires
        0 <= i < n,
        d.len() >= 256 * n,
        nth_number::<Decimal>(d, 104 * n, 8, i) is Some,
        nth_number::<Decimal>(d, 112 * n, 8, i) is Some,
        nth_number::<i64>(d, 120 * n, 8, i) is Some,
        nth_number::<i64>(d, 128 * n, 8, i) is Some,
        nth_number::<u64>(d, 216 * n, 8, i) is Some,
    ensures
        ({
            let m = nth_number::<Decimal>(d, 104 * n, 8, i)->0;
            -field_limit() < m.mantissa < field_limit() && m.scale < 8
        }),
        ({
            let m = nth_number::<Decimal>(d, 112 * n, 8, i)->0;
            -field_limit() < m.mantissa < field_limit() && m.scale < 8
        }),
        -field_limit() < nth_number::<i64>(d, 120 * n, 8, i)->0 < field_limit(),
        -field_limit() < nth_number::<i64>(d, 128 * n, 8, i)->0 < field_limit(),
        nth_number::<u64>(d, 216 * n, 8, i)->0 < field_limit(),
{
    lemma_field_len(d, 104 * n, 8, i);
    lemma_field_len(d, 112 * n, 8, i);
    lemma_field_len(d, 120 * n, 8, i);
    lemma_field_len(d, 128 * n, 8, i);
    lemma_field_len(d, 216 * n, 8, i);
    lemma_decimal_width(field_bytes(d, 104 * n + i * 8, 8));
    lemma_decimal_width(field_bytes(d, 112 * n + i * 8, 8));
    lemma_signed_width(field_bytes(d, 120 * n + i * 8, 8));
    lemma_signed_width(field_bytes(d, 128 * n + i * 8, 8));
    lemma_unsigned_width(field_bytes(d, 216 * n + i * 8, 8), 8);
}

/// Every field of a column of `n` text fields of width `w` at `start` is valid UTF-8.
pub open spec fn texts_ok(d: Seq<u8>, start: int, w: int, n: int) -> bool {
    forall|i: int| 0 <= i < n ==> #[trigger] nth_ok(d, start, w, i)
}

pub open spec fn decimals_ok(d: Seq<u8>, start: int, n: int) -> bool {
    forall|i: int| 0 <= i < n ==> (#[trigger] nth_number::<Decimal>(d, start, 8, i)) is Some
}

pub open spec fn integers_ok(d: Seq<u8>, start: int, n: int) -> bool {
    forall|i: int| 0 <= i < n ==> (#[trigger] nth_number::<i64>(d, start, 8, i)) is Some
}

pub open spec fn counts_ok(d: Seq<u8>, start: int, n: int) -> bool {
    forall|i: int| 0 <= i < n ==> (#[trigger] nth_number::<u64>(d, start, 8, i)) is Some
}

/// The label, transducer and dimension columns of `n` channels are text.
pub open spec fn channel_texts_ok(d: Seq<u8>, n: int) -> bool {
    texts_ok(d, 0, 16, n) && texts_ok(d, 16 * n, 80, n) && texts_ok(d, 96 * n, 8, n)
}

/// The physical and digital bound columns of `n` channels are numbers.
pub open spec fn channel_bounds_ok(d: Seq<u8>, n: int) -> bool {
    &&& decimals_ok(d, 104 * n, n)
    &&& decimals_ok(d, 112 * n, n)
    &&& integers_ok(d, 120 * n, n)
    &&& integers_ok(d, 128 * n, n)
}

pub open spec fn digital_min_at(d: Seq<u8>, n: int, i: int) -> Option<i64> {
    nth_number::<i64>(d, 120 * n, 8, i)
}

pub open spec fn digital_max_at(d: Seq<u8>, n: int, i: int) -> Option<i64> {
    nth_number::<i64>(d, 128 * n, 8, i)
}

/// Some channel has equal digital minimum and maximum.
pub open spec fn some_degenerate(d: Seq<u8>, n: int) -> bool {
    exists|i: int| 0 <= i < n && #[trigger] digital_min_at(d, n, i) == digital_max_at(d, n, i)
}

impl EDFChannel {
    /// `self` is channel `i` of the `n` channels whose column-major fields are `d`.
    pub open spec fn matches(&self, d: Seq<u8>, n: int, i: int) -> bool {
        &&& self.label@ == nth_text(d, 0, 16, i)
        &&& self.transducter_type@ == nth_text(d, 16 * n, 80, i)
        &&& self.physical_dimension@ == nth_text(d, 96 * n, 8, i)
        &&& Some(self.physical_minimum) == nth_number::<Decimal>(d, 104 * n, 8, i)
        &&& Some(self.physical_maximum) == nth_number::<Decimal>(d, 112 * n, 8, i)
        &&& Some(self.digital_minimum) == digital_min_at(d, n, i)
        &&& Some(self.digital_maximum) == digital_max_at(d, n, i)
        &&& self.prefiltering@ == nth_text(d, 136 * n, 80, i)
        &&& Some(self.number_of_samples_in_data_record) == nth_number::<u64>(d, 216 * n, 8, i)
    }
}

impl EDFHeader {
    /// Where the channel records lie: right after the main header, 256 bytes
    /// per channel.
    pub fn channel_records_range(&self) -> (r: (u64, u64))
        requires
            self.general_wf(),
        ensures
            r.0 == EDF_HEADER_BYTE_SIZE,
            r.1 == EDF_HEADER_BYTE_SIZE * self.number_of_signals,
    {
        (EDF_HEADER_BYTE_SIZE as u64, self.number_of_signals * EDF_HEADER_BYTE_SIZE as u64)
    }

    /// Decodes the channel records that follow the main header: each field is
    /// stored as one column of `number_of_signals` values, in the order label,
    /// transducer, dimension, physical minimum and maximum, digital minimum and
    /// maximum, prefiltering, samples per block.
    #[verifier::loop_isolation(false)]
    #[verifier::rlimit(100)]
    pub fn build_channel_headers(&mut self, data: Vec<u8>) -> (r: Result<(), EdfError>)
        requires
            old(self).general_wf(),
        ensures
            ({
                let n = old(self).number_of_signals as int;
                let d = data@;
                &&& d.len() < 256 * n ==> r == Err::<(), EdfError>(EdfError::OutOfData)
                &&& d.len() >= 256 * n ==> {
                    &&& !channel_texts_ok(d, n) ==> r == Err::<(), EdfError>(
                        EdfError::MalformedText,
                    )
                    &&& channel_texts_ok(d, n) && !channel_bounds_ok(d, n) ==> r == Err::<
                        (),
                        EdfError,
                    >(EdfError::MalformedNumber)
                    &&& channel_texts_ok(d, n) && channel_bounds_ok(d, n) && !texts_ok(
                        d,
                        136 * n,
                        80,
                        n,
                    ) ==> r == Err::<(), EdfError>(EdfError::MalformedText)
                    &&& channel_texts_ok(d, n) && channel_bounds_ok(d, n) && texts_ok(
                        d,
                        136 * n,
                        80,
                        n,
                    ) && !counts_ok(d, 216 * n, n) ==> r == Err::<(), EdfError>(
                        EdfError::MalformedNumber,
                    )
                    &&& channel_texts_ok(d, n) && channel_bounds_ok(d, n) && texts_ok(
                        d,
                        136 * n,
                        80,
                        n,
                    ) && counts_ok(d, 216 * n, n) && some_degenerate(d, n) ==> r == Err::<
                        (),
                        EdfError,
                    >(EdfError::DegenerateChannel)
                    &&& channel_texts_ok(d, n) && channel_bounds_ok(d, n) && texts_ok(
                        d,
                        136 * n,
                        80,
                        n,
                    ) && counts_ok(d, 216 * n, n) && !some_degenerate(d, n) ==> r is Ok
                }
                &&& r is Err ==> *final(self) == *old(self)
                &&& r is Ok ==> {
                    &&& final(self).wf()
                    &&& final(self).channels@.len() == n
                    &&& forall|i: int|
                        0 <= i < n ==> (#[trigger] final(self).channels@[i]).matches(d, n, i)
                    &&& final(self).file_version == old(self).file_version
                    &&& final(self).local_patient_identification
                        == old(self).local_patient_identification
                    &&& final(self).local_recording_identification
                        == old(self).local_recording_identification
                    &&& final(self).start_date == old(self).start_date
                    &&& final(self).start_time == old(self).start_time
                    &&& final(self).record_start_time_in_ms == old(self).record_start_time_in_ms
                    &&& final(self).byte_size_header == old(self).byte_size_header
                    &&& final(self).number_of_blocks == old(self).number_of_blocks
                    &&& final(self).block_duration == old(self).block_duration
                    &&& final(self).number_of_signals == old(self).number_of_signals
                }
            }),
    {
        let n = self.number_of_signals;
        let ghost d = data@;
        let ghost ni = n as int;
        if data.len() < 256 * (n as usize) {
            return Err(EdfError::OutOfData);
        }
        let mut parser = Parser::new(data);
        let labels = match parser.parse_string_list(n, 16) {
            Ok(v) => v,
            Err(e) => return Err(e),
        };
        let transducers = match parser.parse_string_list(n, 80) {
            Ok(v) => v,
            Err(e) => return Err(e),
        };
        let dimensions = match parser.parse_string_list(n, 8) {
            Ok(v) => v,
            Err(e) => return Err(e),
        };
        let physical_minima = match parser.parse_number_list::<Decimal>(n, 8) {
            Ok(v) => v,
            Err(e) => return Err(e),
        };
        let physical_maxima = match parser.parse_number_list::<Decimal>(n, 8) {
            Ok(v) => v,
            Err(e) => return Err(e),
        };
        let digital_minima = match parser.parse_number_list::<i64>(n, 8) {
            Ok(v) => v,
            Err(e) => return Err(e),
        };
        let digital_maxima = match parser.parse_number_list::<i64>(n, 8) {
            Ok(v) => v,
            Err(e) => return Err(e),
        };
        let prefilterings = match parser.parse_string_list(n, 80) {
            Ok(v) => v,
            Err(e) => return Err(e),
        };
        let sample_counts = match parser.parse_number_list::<u64>(n, 8) {
            Ok(v) => v,
            Err(e) => return Err(e),
        };
        let count = n as usize;
        assert(channel_texts_ok(d, ni));
        assert(channel_bounds_ok(d, ni));
        assert(texts_ok(d, 136 * ni, 80, ni));
        assert(counts_ok(d, 216 * ni, ni));
        let mut k: usize = 0;
        while k < count
            invariant
                k <= count == ni,
                *self == *old(self),
                ni == old(self).number_of_signals,
                d.len() >= 256 * ni,
                channel_texts_ok(d, ni),
                channel_bounds_ok(d, ni),
                texts_ok(d, 136 * ni, 80, ni),
                counts_ok(d, 216 * ni, ni),
                digital_minima@.len() == ni,
                digital_maxima@.len() == ni,
                forall|i: int| 0 <= i < ni ==> Some(#[trigger] digital_minima@[i]) == digital_min_at(d, ni, i),
                forall|i: int| 0 <= i < ni ==> Some(#[trigger] digital_maxima@[i]) == digital_max_at(d, ni, i),
                forall|i: int| 0 <= i < k ==> #[trigger] digital_min_at(d, ni, i) != digital_max_at(d, ni, i),
            decreases count - k,
        {
            if digital_minima[k] == digital_maxima[k] {
                assert(digital_min_at(d, ni, k as int) == digital_max_at(d, ni, k as int));
                assert(some_degenerate(d, ni));
                return Err(EdfError::DegenerateChannel);
            }
            k = k + 1;
        }
        let mut channels: Vec<EDFChannel> = Vec::new();
        let mut v: usize = 0;
        while v < count
            invariant
                v <= count == ni,
                *self == *old(self),
                ni == old(self).number_of_signals,
                old(self).general_wf(),
                ni < 10000,
                d.len() >= 256 * ni,
                labels@.len() == ni,
                transducers@.len() == ni,
                dimensions@.len() == ni,
                physical_minima@.len() == ni,
                physical_maxima@.len() == ni,
                digital_minima@.len() == ni,
                digital_maxima@.len() == ni,
                prefilterings@.len() == ni,
                sample_counts@.len() == ni,
                forall|i: int| 0 <= i < ni ==> #[trigger] labels@[i]@ == nth_text(d, 0, 16, i),
                forall|i: int| 0 <= i < ni ==> #[trigger] transducers@[i]@ == nth_text(d, 16 * ni, 80, i),
                forall|i: int| 0 <= i < ni ==> #[trigger] dimensions@[i]@ == nth_text(d, 96 * ni, 8, i),
                forall|i: int| 0 <= i < ni ==> Some(#[trigger] physical_minima@[i]) == nth_number::<Decimal>(d, 104 * ni, 8, i),
                forall|i: int| 0 <= i < ni ==> Some(#[trigger] physical_maxima@[i]) == nth_number::<Decimal>(d, 112 * ni, 8, i),
                forall|i: int| 0 <= i < ni ==> Some(#[trigger] digital_minima@[i]) == digital_min_at(d, ni, i),
                forall|i: int| 0 <= i < ni ==> Some(#[trigger] digital_maxima@[i]) == digital_max_at(d, ni, i),
                forall|i: int| 0 <= i < ni ==> #[trigger] prefilterings@[i]@ == nth_text(d, 136 * ni, 80, i),
                forall|i: int| 0 <= i < ni ==> Some(#[trigger] sample_counts@[i]) == nth_number::<u64>(d, 216 * ni, 8, i),
                forall|i: int| 0 <= i < ni ==> #[trigger] digital_min_at(d, ni, i) != digital_max_at(d, ni, i),
                channels@.len() == v,
                forall|i: int| 0 <= i < v ==> (#[trigger] channels@[i]).matches(d, ni, i),
                forall|i: int| 0 <= i < v ==> (#[trigger] channels@[i]).wf(),
            decreases count - v,
        {
            proof {
                let i = v as int;
                assert(Some(physical_minima@[i]) == nth_number::<Decimal>(d, 104 * ni, 8, i));
                assert(Some(physical_maxima@[i]) == nth_number::<Decimal>(d, 112 * ni, 8, i));
                assert(Some(digital_minima@[i]) == digital_min_at(d, ni, i));
                assert(Some(digital_maxima@[i]) == digital_max_at(d, ni, i));
                assert(Some(sample_counts@[i]) == nth_number::<u64>(d, 216 * ni, 8, i));
                lemma_channel_widths(d, ni, i);
            }
            let c = EDFChannel::assemble(
                labels[v].clone(),
                transducers[v].clone(),
                dimensions[v].clone(),
                physical_minima[v],
                physical_maxima[v],
                digital_minima[v],
                digital_maxima[v],
                prefilterings[v].clone(),
                sample_counts[v],
            );
            channels.push(c);
            v = v + 1;
        }
        self.channels = channels;
        Ok(())
    }
}

} // verus!
