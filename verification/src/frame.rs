//! Strict big-endian decoder for the fixed 1288-byte telemetry record:
//! 65 words (unsigned 16-bit), 65 ints (signed 16-bit) and 257 reals
//! (IEEE-754 binary32, carried as raw bit patterns), plus the inverse
//! encoder and the round-trip law.

use vstd::prelude::*;
use crate::decimal::{dec_digits, u64_to_decimal};
use crate::realfmt::{f32_is_finite, format_real, real_text};

verus! {

pub const WORD_COUNT: usize = 65;

pub const INT_COUNT: usize = 65;

pub const REAL_COUNT: usize = 257;

pub const WORD_OFFSET: usize = 0;

pub const INT_OFFSET: usize = WORD_COUNT * 2;

pub const REAL_OFFSET: usize = INT_OFFSET + INT_COUNT * 2;

pub const EXPECTED_PACKET_SIZE: usize = REAL_OFFSET + REAL_COUNT * 4;

/// Unsigned 16-bit word at position `i`, big-endian.
pub open spec fn word_val(d: Seq<u8>, i: int) -> u16 {
    (d[2 * i] * 256 + d[2 * i + 1]) as u16
}

/// Two's-complement value of an unsigned 16-bit quantity.
pub open spec fn i16_of_u16(u: int) -> int {
    if u < 0x8000 {
        u
    } else {
        u - 0x10000
    }
}

/// Signed 16-bit value at position `i`, big-endian.
pub open spec fn int_val(d: Seq<u8>, i: int) -> int {
    i16_of_u16(d[INT_OFFSET + 2 * i] * 256 + d[INT_OFFSET + 2 * i + 1])
}

/// Raw binary32 bit pattern at position `i`, big-endian.
pub open spec fn real_bits_val(d: Seq<u8>, i: int) -> u32 {
    (d[REAL_OFFSET + 4 * i] * 0x100_0000 + d[REAL_OFFSET + 4 * i + 1] * 0x1_0000 + d[REAL_OFFSET
        + 4 * i + 2] * 0x100 + d[REAL_OFFSET + 4 * i + 3]) as u32
}

/// Variable key for the word at position `i`.
pub open spec fn word_name(i: int) -> Seq<char> {
    "Word["@ + dec_digits(i as nat) + "]"@
}

/// Variable key for the int at position `i`.
pub open spec fn int_name(i: int) -> Seq<char> {
    "Int["@ + dec_digits(i as nat) + "]"@
}

/// Variable key for the real at position `i`.
pub open spec fn real_name(i: int) -> Seq<char> {
    "Real["@ + dec_digits(i as nat) + "]"@
}

/// Decimal text of a signed value.
pub open spec fn int_text(v: int) -> Seq<char> {
    if v < 0 {
        seq!['-'] + dec_digits((-v) as nat)
    } else {
        dec_digits(v as nat)
    }
}

/// Text shown for a real: four fractional digits for finite patterns,
/// and a plain zero for NaN and the infinities.
pub open spec fn real_value_text(bits: u32) -> Seq<char> {
    if f32_is_finite(bits) {
        real_text(bits)
    } else {
        "0.0"@
    }
}

/// A single decoded variable, stringified, with its PLC type name.
#[derive(Debug)]
pub struct PlcVariable {
    pub name: String,
    pub value: String,
    pub data_type: String,
    pub unit: Option<String>,
}

/// The last packet decoded for one peer, kept for queries.
#[derive(Debug)]
pub struct PlcDataPacket {
    pub ip: String,
    pub timestamp: u64,
    pub size: usize,
    pub variables: Vec<PlcVariable>,
}

/// Two variables carry the same text in every field.
pub open spec fn var_matches(a: PlcVariable, b: PlcVariable) -> bool {
    &&& a.name@ == b.name@
    &&& a.value@ == b.value@
    &&& a.data_type@ == b.data_type@
    &&& (a.unit is None <==> b.unit is None)
    &&& (a.unit is Some ==> a.unit->0@ == b.unit->0@)
}

/// Two packets carry the same peer, time, size and variables.
pub open spec fn packet_matches(a: PlcDataPacket, b: PlcDataPacket) -> bool {
    &&& a.ip@ == b.ip@
    &&& a.timestamp == b.timestamp
    &&& a.size == b.size
    &&& a.variables@.len() == b.variables@.len()
    &&& forall|i: int| 0 <= i < a.variables@.len() ==> var_matches(a.variables@[i], b.variables@[i])
}

impl Clone for PlcVariable {
    fn clone(&self) -> (r: Self)
        ensures
            var_matches(r, *self),
    {
        PlcVariable {
            name: self.name.clone(),
            value: self.value.clone(),
            data_type: self.data_type.clone(),
            unit: match &self.unit {
                Some(u) => Some(u.clone()),
                None => None,
            },
        }
    }
}

impl Clone for PlcDataPacket {
    fn clone(&self) -> (r: Self)
        ensures
            packet_matches(r, *self),
    {
        let mut variables: Vec<PlcVariable> = Vec::new();
        let mut i: usize = 0;
        while i < self.variables.len()
            invariant
                i <= self.variables@.len(),
                variables@.len() == i,
                forall|j: int| 0 <= j < i ==> var_matches(variables@[j], self.variables@[j]),
            decreases self.variables@.len() - i,
        {
            variables.push(self.variables[i].clone());
            i = i + 1;
        }
        PlcDataPacket { ip: self.ip.clone(), timestamp: self.timestamp, size: self.size, variables }
    }
}

/// One decoded telemetry record: the value published to subscribers.
/// Reals are carried as raw binary32 bit patterns so that the record is
/// exact; consumers may convert them to floating point at the edge.
#[derive(Debug, Clone)]
pub struct Frame {
    pub timestamp: String,
    pub words: Vec<u16>,
    pub ints: Vec<i16>,
    pub real_bits: Vec<u32>,
    pub total_bytes: usize,
}

/// Decoder failure: the input held fewer bytes than one record.
#[derive(Debug, Clone, PartialEq, Eq, Structural)]
pub enum DecodeError {
    ShortFrame,
}

/// What it means for one entry of the variable list to present a word.
pub open spec fn is_word_variable(v: PlcVariable, i: int, w: u16) -> bool {
    &&& v.name@ == word_name(i)
    &&& v.value@ == dec_digits(w as nat)
    &&& v.data_type@ == "Word"@
    &&& v.unit is None
}

/// What it means for one entry of the variable list to present an int.
pub open spec fn is_int_variable(v: PlcVariable, i: int, value: int) -> bool {
    &&& v.name@ == int_name(i)
    &&& v.value@ == int_text(value)
    &&& v.data_type@ == "Int"@
    &&& v.unit is None
}

/// What it means for one entry of the variable list to present a real.
pub open spec fn is_real_variable(v: PlcVariable, i: int, bits: u32) -> bool {
    &&& v.name@ == real_name(i)
    &&& v.value@ == real_value_text(bits)
    &&& v.data_type@ == "Real"@
    &&& v.unit is None
}

/// The typed arrays of a frame hold exactly the big-endian fields of
/// the first 1288 bytes of `d`.
pub open spec fn frame_decodes(d: Seq<u8>, frame: Frame) -> bool {
    &&& frame.words@.len() == WORD_COUNT
    &&& frame.ints@.len() == INT_COUNT
    &&& frame.real_bits@.len() == REAL_COUNT
    &&& forall|i: int| 0 <= i < WORD_COUNT ==> frame.words@[i] == word_val(d, i)
    &&& forall|i: int| 0 <= i < INT_COUNT ==> frame.ints@[i] as int == int_val(d, i)
    &&& forall|i: int| 0 <= i < REAL_COUNT ==> frame.real_bits@[i] == real_bits_val(d, i)
    &&& frame.total_bytes == d.len()
}

/// The variable list presents the fields of `d` in order: words, then
/// ints, then reals, each named, typed and stringified.
pub open spec fn vars_decode(d: Seq<u8>, vars: Seq<PlcVariable>) -> bool {
    &&& vars.len() == WORD_COUNT + INT_COUNT + REAL_COUNT
    &&& forall|i: int| 0 <= i < WORD_COUNT ==> is_word_variable(vars[i], i, word_val(d, i))
    &&& forall|i: int|
        0 <= i < INT_COUNT ==> is_int_variable(vars[WORD_COUNT + i], i, int_val(d, i))
    &&& forall|i: int|
        0 <= i < REAL_COUNT ==> is_real_variable(
            vars[WORD_COUNT + INT_COUNT + i],
            i,
            real_bits_val(d, i),
        )
}

/// A fully correct decode of buffer `d`.
pub open spec fn is_decoded(d: Seq<u8>, frame: Frame, vars: Seq<PlcVariable>) -> bool {
    &&& frame_decodes(d, frame)
    &&& vars_decode(d, vars)
}

/// Builds the variable key `<prefix><i>]`, as in `Word[3]`.
fn var_name(prefix: &str, i: u64) -> (r: String)
    ensures
        r@ == prefix@ + dec_digits(i as nat) + "]"@,
{
    let mut r = prefix.to_owned();
    let digits = u64_to_decimal(i);
    r.append(digits.as_str());
    let close = "]";
    r.append(close);
    proof {
        assert(r@ =~= prefix@ + dec_digits(i as nat) + "]"@);
    }
    r
}

/// Decimal text of a signed 16-bit value.
fn i16_to_decimal(v: i16) -> (r: String)
    ensures
        r@ == int_text(v as int),
{
    if v >= 0 {
        u64_to_decimal(v as u64)
    } else {
        let wide: i64 = v as i64;
        let magnitude: u64 = (-wide) as u64;
        let mut r = String::new();
        let dash = "-";
        proof {
            reveal_strlit("-");
        }
        r.append(dash);
        let digits = u64_to_decimal(magnitude);
        r.append(digits.as_str());
        proof {
            assert(r@ =~= int_text(v as int));
        }
        r
    }
}

/// Decodes the first 1288 bytes of `data` into a typed record and its
/// stringified variable list. Fails exactly when `data` holds fewer
/// bytes than one record.
pub fn parse_plc_packet(data: &Vec<u8>, timestamp: String) -> (r: Result<
    (Frame, Vec<PlcVariable>),
    DecodeError,
>)
    ensures
        match r {
            Ok((frame, vars)) => {
                &&& data@.len() >= EXPECTED_PACKET_SIZE
                &&& is_decoded(data@, frame, vars@)
                &&& frame.timestamp == timestamp
            },
            Err(e) => data@.len() < EXPECTED_PACKET_SIZE && e == DecodeError::ShortFrame,
        },
{
    if data.len() < EXPECTED_PACKET_SIZE {
        return Err(DecodeError::ShortFrame);
    }
    let mut words: Vec<u16> = Vec::new();
    let mut i: usize = 0;
    while i < WORD_COUNT
        invariant
            data@.len() >= EXPECTED_PACKET_SIZE,
            i <= WORD_COUNT,
            words@.len() == i,
            forall|j: int| 0 <= j < i ==> words@[j] == word_val(data@, j),
        decreases WORD_COUNT - i,
    {
        let hi = data[2 * i];
        let lo = data[2 * i + 1];
        words.push((hi as u16) * 256 + (lo as u16));
        i = i + 1;
    }
    let mut ints: Vec<i16> = Vec::new();
    i = 0;
    while i < INT_COUNT
        invariant
            data@.len() >= EXPECTED_PACKET_SIZE,
            i <= INT_COUNT,
            ints@.len() == i,
            forall|j: int| 0 <= j < i ==> ints@[j] as int == int_val(data@, j),
        decreases INT_COUNT - i,
    {
        let hi = data[INT_OFFSET + 2 * i];
        let lo = data[INT_OFFSET + 2 * i + 1];
        let u: u16 = (hi as u16) * 256 + (lo as u16);
        let v: i16 = if u < 0x8000 {
            u as i16
        } else {
            ((u as i32) - 0x1_0000) as i16
        };
        ints.push(v);
        i = i + 1;
    }
    let mut real_bits: Vec<u32> = Vec::new();
    i = 0;
    while i < REAL_COUNT
        invariant
            data@.len() >= EXPECTED_PACKET_SIZE,
            i <= REAL_COUNT,
            real_bits@.len() == i,
            forall|j: int| 0 <= j < i ==> real_bits@[j] == real_bits_val(data@, j),
        decreases REAL_COUNT - i,
    {
        let b0 = data[REAL_OFFSET + 4 * i];
        let b1 = data[REAL_OFFSET + 4 * i + 1];
        let b2 = data[REAL_OFFSET + 4 * i + 2];
        let b3 = data[REAL_OFFSET + 4 * i + 3];
        let bits: u32 = (b0 as u32) * 0x100_0000 + (b1 as u32) * 0x1_0000 + (b2 as u32) * 0x100 + (
        b3 as u32);
        real_bits.push(bits);
        i = i + 1;
    }
    let mut vars: Vec<PlcVariable> = Vec::new();
    i = 0;
    while i < WORD_COUNT
        invariant
            i <= WORD_COUNT,
            vars@.len() == i,
            words@.len() == WORD_COUNT,
            forall|j: int| 0 <= j < WORD_COUNT ==> words@[j] == word_val(data@, j),
            forall|j: int| 0 <= j < i ==> is_word_variable(vars@[j], j, words@[j]),
            data@.len() >= EXPECTED_PACKET_SIZE,
        decreases WORD_COUNT - i,
    {
        let w = words[i];
        vars.push(
            PlcVariable {
                name: var_name("Word[", i as u64),
                value: u64_to_decimal(w as u64),
                data_type: "Word".to_owned(),
                unit: None,
            },
        );
        i = i + 1;
    }
    i = 0;
    while i < INT_COUNT
        invariant
            i <= INT_COUNT,
            vars@.len() == WORD_COUNT + i,
            ints@.len() == INT_COUNT,
            forall|j: int| 0 <= j < INT_COUNT ==> ints@[j] as int == int_val(data@, j),
            forall|j: int| 0 <= j < WORD_COUNT ==> is_word_variable(vars@[j], j, word_val(data@, j)),
            forall|j: int| 0 <= j < i ==> is_int_variable(vars@[WORD_COUNT + j], j, ints@[j] as int),
            data@.len() >= EXPECTED_PACKET_SIZE,
        decreases INT_COUNT - i,
    {
        let v = ints[i];
        vars.push(
            PlcVariable {
                name: var_name("Int[", i as u64),
                value: i16_to_decimal(v),
                data_type: "Int".to_owned(),
                unit: None,
            },
        );
        i = i + 1;
    }
    i = 0;
    while i < REAL_COUNT
        invariant
            i <= REAL_COUNT,
            vars@.len() == WORD_COUNT + INT_COUNT + i,
            real_bits@.len() == REAL_COUNT,
            forall|j: int| 0 <= j < REAL_COUNT ==> real_bits@[j] == real_bits_val(data@, j),
            forall|j: int| 0 <= j < WORD_COUNT ==> is_word_variable(vars@[j], j, word_val(data@, j)),
            forall|j: int|
                0 <= j < INT_COUNT ==> is_int_variable(vars@[WORD_COUNT + j], j, int_val(data@, j)),
            forall|j: int|
                0 <= j < i ==> is_real_variable(vars@[WORD_COUNT + INT_COUNT + j], j, real_bits@[j]),
            data@.len() >= EXPECTED_PACKET_SIZE,
        decreases REAL_COUNT - i,
    {
        let bits = real_bits[i];
        let exp_field: u32 = (bits / 0x80_0000) % 0x100;
        let value: String = if exp_field != 255 {
            format_real(bits)
        } else {
            "0.0".to_owned()
        };
        vars.push(
            PlcVariable {
                name: var_name("Real[", i as u64),
                value,
                data_type: "Real".to_owned(),
                unit: None,
            },
        );
        i = i + 1;
    }
    let frame = Frame {
        timestamp,
        words,
        ints,
        real_bits,
        total_bytes: data.len(),
    };
    Ok((frame, vars))
}

/// Decodes a record, stamping it with the current wall-clock time, as
/// the passive ingest path does.
pub fn parse_plc_packet_now(data: &Vec<u8>) -> (r: Result<(Frame, Vec<PlcVariable>), DecodeError>)
    ensures
        match r {
            Ok((frame, vars)) => {
                &&& data@.len() >= EXPECTED_PACKET_SIZE
                &&& is_decoded(data@, frame, vars@)
                &&& frame.timestamp@.len() > 0
            },
            Err(e) => data@.len() < EXPECTED_PACKET_SIZE && e == DecodeError::ShortFrame,
        },
{
    parse_plc_packet(data, crate::clock::now_rfc3339())
}

/// The unsigned 16-bit carrier of a signed value, two's complement.
pub open spec fn u16_of_i16(v: i16) -> int {
    if v >= 0 {
        v as int
    } else {
        v + 0x10000
    }
}

/// Byte `k` of the encoding of the given words, ints and reals.
pub open spec fn encoded_byte(w: Seq<u16>, ii: Seq<i16>, r: Seq<u32>, k: int) -> u8 {
    if k < INT_OFFSET {
        let u = w[k / 2] as int;
        if k % 2 == 0 {
            (u / 256) as u8
        } else {
            (u % 256) as u8
        }
    } else if k < REAL_OFFSET {
        let u = u16_of_i16(ii[(k - INT_OFFSET) / 2]);
        if (k - INT_OFFSET) % 2 == 0 {
            (u / 256) as u8
        } else {
            (u % 256) as u8
        }
    } else {
        let b = r[(k - REAL_OFFSET) / 4] as int;
        let o = (k - REAL_OFFSET) % 4;
        if o == 0 {
            (b / 0x100_0000) as u8
        } else if o == 1 {
            ((b / 0x1_0000) % 256) as u8
        } else if o == 2 {
            ((b / 256) % 256) as u8
        } else {
            (b % 256) as u8
        }
    }
}

/// The 1288-byte big-endian encoding of 65 words, 65 ints and 257 reals.
pub open spec fn spec_encode(w: Seq<u16>, ii: Seq<i16>, r: Seq<u32>) -> Seq<u8> {
    Seq::new(EXPECTED_PACKET_SIZE as nat, |k: int| encoded_byte(w, ii, r, k))
}

/// Encodes the given values as one 1288-byte record, big-endian.
pub fn encode_frame(words: &Vec<u16>, ints: &Vec<i16>, reals: &Vec<u32>) -> (out: Vec<u8>)
    requires
        words@.len() == WORD_COUNT,
        ints@.len() == INT_COUNT,
        reals@.len() == REAL_COUNT,
    ensures
        out@ == spec_encode(words@, ints@, reals@),
        out@.len() == EXPECTED_PACKET_SIZE,
{
    let ghost target = spec_encode(words@, ints@, reals@);
    let mut out: Vec<u8> = Vec::new();
    let mut i: usize = 0;
    while i < WORD_COUNT
        invariant
            i <= WORD_COUNT,
            out@.len() == 2 * i,
            words@.len() == WORD_COUNT,
            ints@.len() == INT_COUNT,
            reals@.len() == REAL_COUNT,
            target == spec_encode(words@, ints@, reals@),
            forall|k: int| 0 <= k < out@.len() ==> out@[k] == target[k],
        decreases WORD_COUNT - i,
    {
        let w = words[i];
        proof {
            assert((2 * i) / 2 == i && (2 * i) % 2 == 0 && (2 * i + 1) / 2 == i && (2 * i + 1) % 2
                == 1);
        }
        out.push((w / 256) as u8);
        out.push((w % 256) as u8);
        i = i + 1;
    }
    i = 0;
    while i < INT_COUNT
        invariant
            i <= INT_COUNT,
            out@.len() == INT_OFFSET + 2 * i,
            words@.len() == WORD_COUNT,
            ints@.len() == INT_COUNT,
            reals@.len() == REAL_COUNT,
            target == spec_encode(words@, ints@, reals@),
            forall|k: int| 0 <= k < out@.len() ==> out@[k] == target[k],
        decreases INT_COUNT - i,
    {
        let v = ints[i];
        let u: u16 = if v >= 0 {
            v as u16
        } else {
            ((v as i32) + 0x1_0000) as u16
        };
        assert(u as int == u16_of_i16(ints@[i as int]));
        proof {
            let k = INT_OFFSET + 2 * i;
            assert((k - INT_OFFSET) / 2 == i && (k - INT_OFFSET) % 2 == 0);
            assert((k + 1 - INT_OFFSET) / 2 == i && (k + 1 - INT_OFFSET) % 2 == 1);
        }
        out.push((u / 256) as u8);
        out.push((u % 256) as u8);
        i = i + 1;
    }
    i = 0;
    while i < REAL_COUNT
        invariant
            i <= REAL_COUNT,
            out@.len() == REAL_OFFSET + 4 * i,
            words@.len() == WORD_COUNT,
            ints@.len() == INT_COUNT,
            reals@.len() == REAL_COUNT,
            target == spec_encode(words@, ints@, reals@),
            forall|k: int| 0 <= k < out@.len() ==> out@[k] == target[k],
        decreases REAL_COUNT - i,
    {
        let b = reals[i];
        proof {
            let k = REAL_OFFSET + 4 * i;
            assert((k - REAL_OFFSET) / 4 == i && (k - REAL_OFFSET) % 4 == 0);
            assert((k + 1 - REAL_OFFSET) / 4 == i && (k + 1 - REAL_OFFSET) % 4 == 1);
            assert((k + 2 - REAL_OFFSET) / 4 == i && (k + 2 - REAL_OFFSET) % 4 == 2);
            assert((k + 3 - REAL_OFFSET) / 4 == i && (k + 3 - REAL_OFFSET) % 4 == 3);
        }
        out.push((b / 0x100_0000) as u8);
        out.push(((b / 0x1_0000) % 256) as u8);
        out.push(((b / 256) % 256) as u8);
        out.push((b % 256) as u8);
        i = i + 1;
    }
    proof {
        assert(out@ =~= target);
    }
    out
}

/// Round-trip law: decoding an encoded record yields exactly the words,
/// ints and reals that were encoded.
pub proof fn lemma_encode_round_trip(w: Seq<u16>, ii: Seq<i16>, r: Seq<u32>)
    requires
        w.len() == WORD_COUNT,
        ii.len() == INT_COUNT,
        r.len() == REAL_COUNT,
    ensures
        forall|j: int| 0 <= j < WORD_COUNT ==> #[trigger] word_val(spec_encode(w, ii, r), j) == w[j],
        forall|j: int| 0 <= j < INT_COUNT ==> #[trigger] int_val(spec_encode(w, ii, r), j) == ii[j],
        forall|j: int|
            0 <= j < REAL_COUNT ==> #[trigger] real_bits_val(spec_encode(w, ii, r), j) == r[j],
{
    let d = spec_encode(w, ii, r);
    assert forall|j: int| 0 <= j < WORD_COUNT implies #[trigger] word_val(d, j) == w[j] by {
        assert((2 * j) / 2 == j && (2 * j) % 2 == 0 && (2 * j + 1) / 2 == j && (2 * j + 1) % 2
            == 1);
        let u = w[j] as int;
        assert(d[2 * j] == (u / 256) as u8 && d[2 * j + 1] == (u % 256) as u8);
        assert((u / 256) * 256 + u % 256 == u);
    }
    assert forall|j: int| 0 <= j < INT_COUNT implies #[trigger] int_val(d, j) == ii[j] by {
        let k = INT_OFFSET + 2 * j;
        assert((k - INT_OFFSET) / 2 == j && (k - INT_OFFSET) % 2 == 0);
        assert((k + 1 - INT_OFFSET) / 2 == j && (k + 1 - INT_OFFSET) % 2 == 1);
        let u = u16_of_i16(ii[j]);
        assert(d[k] == (u / 256) as u8 && d[k + 1] == (u % 256) as u8);
        assert(0 <= u < 0x10000);
        assert((u / 256) * 256 + u % 256 == u);
        assert(i16_of_u16(u) == ii[j]);
    }
    assert forall|j: int| 0 <= j < REAL_COUNT implies #[trigger] real_bits_val(d, j) == r[j] by {
        let k = REAL_OFFSET + 4 * j;
        assert((k - REAL_OFFSET) / 4 == j && (k - REAL_OFFSET) % 4 == 0);
        assert((k + 1 - REAL_OFFSET) / 4 == j && (k + 1 - REAL_OFFSET) % 4 == 1);
        assert((k + 2 - REAL_OFFSET) / 4 == j && (k + 2 - REAL_OFFSET) % 4 == 2);
        assert((k + 3 - REAL_OFFSET) / 4 == j && (k + 3 - REAL_OFFSET) % 4 == 3);
        let b = r[j] as int;
        assert(d[k] == (b / 0x100_0000) as u8);
        assert(d[k + 1] == ((b / 0x1_0000) % 256) as u8);
        assert(d[k + 2] == ((b / 256) % 256) as u8);
        assert(d[k + 3] == (b % 256) as u8);
        assert((b / 0x100_0000) * 0x100_0000 + ((b / 0x1_0000) % 256) * 0x1_0000 + ((b / 256) % 256)
            * 256 + b % 256 == b) by (nonlinear_arith)
            requires
                0 <= b < 0x1_0000_0000,
        ;
    }
}

} // verus!
