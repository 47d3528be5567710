//! Byte order, scalar types, and decoding a scalar to text.
//!
//! A scalar value is read from a byte slice under a byte order and
//! written as text: base-10 for the integer types (signed ones in
//! two's complement), six fixed decimal places for the 32- and 64-bit
//! IEEE-754 types.

use vstd::arithmetic::power2::lemma2_to64;
use vstd::arithmetic::power2::lemma2_to64_rest;
use vstd::arithmetic::power2::lemma_pow2_adds;
use vstd::arithmetic::power2::lemma_pow2_strictly_increases;
use vstd::arithmetic::power2::pow2;
use vstd::prelude::*;
use vstd::string::StrSliceExecFns;
use vstd::string::StringExecFns;

use crate::errors::HexError;
use crate::floattext::double_text;
use crate::floattext::double_fixed6;
use crate::floattext::single_text;
use crate::floattext::single_fixed6;
use crate::numtext::dec_str;
use crate::numtext::append_u64_dec;
use crate::numtext::u64_dec_string;

verus! {

/// The order in which a scalar's bytes stand in the buffer.
#[derive(Debug, Clone, Copy, PartialEq, Eq, Structural)]
pub enum ByteOrder {
    Little,
    Big,
}

/// The supported scalar types.
#[derive(Debug, Clone, Copy, PartialEq, Eq, Structural)]
pub enum DataType {
    U8,
    U16,
    U32,
    U64,
    I8,
    I16,
    I32,
    I64,
    F32,
    F64,
}

/// `s` equals the keyword whose lower-case spelling is `low` and whose
/// upper-case spelling is `up`, compared one character at a time with
/// either case accepted.
pub open spec fn kw_match(s: Seq<char>, low: Seq<char>, up: Seq<char>) -> bool {
    s.len() == low.len() && (forall|i: int|
        0 <= i < s.len() ==> (s[i] == low[i] || s[i] == up[i]))
}

/// Compares `s` with a keyword given in its two spellings.
fn matches_keyword(s: &str, low: &str, up: &str) -> (r: bool)
    requires
        low@.len() == up@.len(),
    ensures
        r == kw_match(s@, low@, up@),
{
    let n = s.unicode_len();
    if n != low.unicode_len() {
        return false;
    }
    let mut i: usize = 0;
    while i < n
        invariant
            i <= n,
            n == s@.len(),
            n == low@.len(),
            low@.len() == up@.len(),
            forall|j: int| 0 <= j < i ==> (s@[j] == low@[j] || s@[j] == up@[j]),
        decreases n - i,
    {
        let c = s.get_char(i);
        let cl = low.get_char(i);
        let cu = up.get_char(i);
        if c != cl && c != cu {
            return false;
        }
        i = i + 1;
    }
    true
}

/// The word asks for little-endian order.
pub open spec fn spells_little(s: Seq<char>) -> bool {
    kw_match(s, "little"@, "LITTLE"@) || kw_match(s, "le"@, "LE"@)
}

/// The word asks for big-endian order.
pub open spec fn spells_big(s: Seq<char>) -> bool {
    kw_match(s, "big"@, "BIG"@) || kw_match(s, "be"@, "BE"@)
}

impl ByteOrder {
    /// Reads a byte-order word: "little"/"le" or "big"/"be", any case.
    pub fn from_str(s: &str) -> (r: Result<ByteOrder, HexError>)
        ensures
            spells_little(s@) <==> r == Ok::<ByteOrder, HexError>(ByteOrder::Little),
            spells_big(s@) <==> r == Ok::<ByteOrder, HexError>(ByteOrder::Big),
            !spells_little(s@) && !spells_big(s@) ==> (r matches Err(e) && e matches
                HexError::InvalidByteOrder { given } && given@ == s@),
    {
        proof {
            reveal_strlit("little");
            reveal_strlit("LITTLE");
            reveal_strlit("le");
            reveal_strlit("LE");
            reveal_strlit("big");
            reveal_strlit("BIG");
            reveal_strlit("be");
            reveal_strlit("BE");
        }
        proof {
            if kw_match(s@, "le"@, "LE"@) && kw_match(s@, "be"@, "BE"@) {
                assert(s@[0] == 'l' || s@[0] == 'L');
                assert(s@[0] == 'b' || s@[0] == 'B');
                assert(false);
            }
        }
        if matches_keyword(s, "little", "LITTLE") || matches_keyword(s, "le", "LE") {
            Ok(ByteOrder::Little)
        } else if matches_keyword(s, "big", "BIG") || matches_keyword(s, "be", "BE") {
            Ok(ByteOrder::Big)
        } else {
            Err(HexError::InvalidByteOrder { given: s.to_owned() })
        }
    }
}

impl Default for ByteOrder {
    /// Little-endian, the common order on current machines.
    fn default() -> (r: Self)
        ensures
            r == ByteOrder::Little,
    {
        ByteOrder::Little
    }
}

/// The type a token spells, if any (case-insensitive; "float" and
/// "double" name the 32- and 64-bit IEEE-754 types).
pub open spec fn spelled_type(s: Seq<char>) -> Option<DataType> {
    if kw_match(s, "u8"@, "U8"@) {
        Some(DataType::U8)
    } else if kw_match(s, "u16"@, "U16"@) {
        Some(DataType::U16)
    } else if kw_match(s, "u32"@, "U32"@) {
        Some(DataType::U32)
    } else if kw_match(s, "u64"@, "U64"@) {
        Some(DataType::U64)
    } else if kw_match(s, "i8"@, "I8"@) {
        Some(DataType::I8)
    } else if kw_match(s, "i16"@, "I16"@) {
        Some(DataType::I16)
    } else if kw_match(s, "i32"@, "I32"@) {
        Some(DataType::I32)
    } else if kw_match(s, "i64"@, "I64"@) {
        Some(DataType::I64)
    } else if kw_match(s, "f32"@, "F32"@) || kw_match(s, "float"@, "FLOAT"@) {
        Some(DataType::F32)
    } else if kw_match(s, "f64"@, "F64"@) || kw_match(s, "double"@, "DOUBLE"@) {
        Some(DataType::F64)
    } else {
        None
    }
}

/// Sum of the bytes as a base-256 number, least significant byte first.
pub open spec fn le_nat(b: Seq<u8>) -> nat
    decreases b.len(),
{
    if b.len() == 0 {
        0
    } else {
        (b[0] + 256 * le_nat(b.drop_first())) as nat
    }
}

/// Sum of the bytes as a base-256 number, most significant byte first.
pub open spec fn be_nat(b: Seq<u8>) -> nat
    decreases b.len(),
{
    if b.len() == 0 {
        0
    } else {
        (256 * be_nat(b.drop_last()) + b.last()) as nat
    }
}

/// The number the first `b.len()` bytes hold under the given order.
pub open spec fn scalar_nat(b: Seq<u8>, order: ByteOrder) -> nat {
    if order == ByteOrder::Little {
        le_nat(b)
    } else {
        be_nat(b)
    }
}

/// The decimal writing of the `w`-bit two's complement value whose
/// unsigned representation is `v`; `half` is 2^(w-1).
pub open spec fn signed_dec(v: nat, half: nat) -> Seq<char> {
    if v < half {
        dec_str(v)
    } else {
        seq!['-'] + dec_str((2 * half - v) as nat)
    }
}

impl DataType {
    /// The width of the type in bytes.
    pub open spec fn spec_size(self) -> usize {
        match self {
            DataType::U8 | DataType::I8 => 1,
            DataType::U16 | DataType::I16 => 2,
            DataType::U32 | DataType::I32 | DataType::F32 => 4,
            DataType::U64 | DataType::I64 | DataType::F64 => 8,
        }
    }

    /// The canonical name of the type.
    pub open spec fn spec_name(self) -> Seq<char> {
        match self {
            DataType::U8 => "u8"@,
            DataType::U16 => "u16"@,
            DataType::U32 => "u32"@,
            DataType::U64 => "u64"@,
            DataType::I8 => "i8"@,
            DataType::I16 => "i16"@,
            DataType::I32 => "i32"@,
            DataType::I64 => "i64"@,
            DataType::F32 => "f32"@,
            DataType::F64 => "f64"@,
        }
    }

    /// The text `decode` produces from the first `spec_size` bytes of
    /// `b` under the given order.
    pub open spec fn decoded_text(self, b: Seq<u8>, order: ByteOrder) -> Seq<char> {
        let v = scalar_nat(b.take(self.spec_size() as int), order);
        match self {
            DataType::U8 | DataType::U16 | DataType::U32 | DataType::U64 => dec_str(v),
            DataType::I8 => signed_dec(v, 0x80),
            DataType::I16 => signed_dec(v, 0x8000),
            DataType::I32 => signed_dec(v, 0x80000000),
            DataType::I64 => signed_dec(v, 0x8000000000000000),
            DataType::F32 => single_text(v as u32),
            DataType::F64 => double_text(v as u64),
        }
    }

    /// Reads a type name, case-insensitive.
    pub fn from_str(s: &str) -> (r: Result<DataType, HexError>)
        ensures
            spelled_type(s@) matches Some(t) ==> r == Ok::<DataType, HexError>(t),
            spelled_type(s@) is None ==> (r matches Err(e) && e matches HexError::UnknownType {
                given,
            } && given@ == s@),
    {
        proof {
            reveal_strlit("u8");
            reveal_strlit("U8");
            reveal_strlit("u16");
            reveal_strlit("U16");
            reveal_strlit("u32");
            reveal_strlit("U32");
            reveal_strlit("u64");
            reveal_strlit("U64");
            reveal_strlit("i8");
            reveal_strlit("I8");
            reveal_strlit("i16");
            reveal_strlit("I16");
            reveal_strlit("i32");
            reveal_strlit("I32");
            reveal_strlit("i64");
            reveal_strlit("I64");
            reveal_strlit("f32");
            reveal_strlit("F32");
            reveal_strlit("float");
            reveal_strlit("FLOAT");
            reveal_strlit("f64");
            reveal_strlit("F64");
            reveal_strlit("double");
            reveal_strlit("DOUBLE");
        }
        if matches_keyword(s, "u8", "U8") {
            Ok(DataType::U8)
        } else if matches_keyword(s, "u16", "U16") {
            Ok(DataType::U16)
        } else if matches_keyword(s, "u32", "U32") {
            Ok(DataType::U32)
        } else if matches_keyword(s, "u64", "U64") {
            Ok(DataType::U64)
        } else if matches_keyword(s, "i8", "I8") {
            Ok(DataType::I8)
        } else if matches_keyword(s, "i16", "I16") {
            Ok(DataType::I16)
        } else if matches_keyword(s, "i32", "I32") {
            Ok(DataType::I32)
        } else if matches_keyword(s, "i64", "I64") {
            Ok(DataType::I64)
        } else if matches_keyword(s, "f32", "F32") || matches_keyword(s, "float", "FLOAT") {
            Ok(DataType::F32)
        } else if matches_keyword(s, "f64", "F64") || matches_keyword(s, "double", "DOUBLE") {
            Ok(DataType::F64)
        } else {
            Err(HexError::UnknownType { given: s.to_owned() })
        }
    }

    /// The width of the type in bytes.
    pub fn size(&self) -> (r: usize)
        ensures
            r == self.spec_size(),
    {
        match self {
            DataType::U8 | DataType::I8 => 1,
            DataType::U16 | DataType::I16 => 2,
            DataType::U32 | DataType::I32 | DataType::F32 => 4,
            DataType::U64 | DataType::I64 | DataType::F64 => 8,
        }
    }

    /// The canonical name of the type.
    pub fn name(&self) -> (r: &'static str)
        ensures
            r@ == self.spec_name(),
    {
        match self {
            DataType::U8 => "u8",
            DataType::U16 => "u16",
            DataType::U32 => "u32",
            DataType::U64 => "u64",
            DataType::I8 => "i8",
            DataType::I16 => "i16",
            DataType::I32 => "i32",
            DataType::I64 => "i64",
            DataType::F32 => "f32",
            DataType::F64 => "f64",
        }
    }

    /// Decodes the scalar at the front of `bytes` and writes it as text.
    /// Fails exactly when the slice is shorter than the type's width.
    pub fn decode(&self, bytes: &[u8], byte_order: ByteOrder) -> (r: Result<String, HexError>)
        ensures
            bytes@.len() >= self.spec_size() ==> (r matches Ok(t) && t@ == self.decoded_text(
                bytes@,
                byte_order,
            )),
            bytes@.len() < self.spec_size() ==> r == Err::<String, HexError>(
                HexError::NotEnoughBytes { needed: self.spec_size(), got: bytes@.len() as usize },
            ),
    {
        let w = self.size();
        let n = bytes.len();
        if n < w {
            return Err(HexError::NotEnoughBytes { needed: w, got: n });
        }
        let v: u64 = match byte_order {
            ByteOrder::Little => read_le(bytes, w),
            ByteOrder::Big => read_be(bytes, w),
        };
        proof {
            assert(v as nat == scalar_nat(bytes@.take(self.spec_size() as int), byte_order));
            lemma_scalar_upper(bytes@.take(self.spec_size() as int), byte_order);
            lemma2_to64();
            lemma2_to64_rest();
            if self.spec_size() == 1 {
                assert(pow2(8 * 1) == 0x100);
            } else if self.spec_size() == 2 {
                assert(pow2(8 * 2) == 0x10000);
            } else if self.spec_size() == 4 {
                assert(pow2(8 * 4) == 0x100000000);
            } else {
                lemma_pow2_adds(32, 32);
                assert(pow2(8 * 8) == 0x10000000000000000);
            }
        }
        let text: String = match self {
            DataType::U8 | DataType::U16 | DataType::U32 | DataType::U64 => u64_dec_string(v),
            DataType::I8 => signed_dec_string(v, 0x80),
            DataType::I16 => signed_dec_string(v, 0x8000),
            DataType::I32 => signed_dec_string(v, 0x80000000),
            DataType::I64 => signed_dec_string(v, 0x8000000000000000),
            DataType::F32 => single_fixed6(v as u32),
            DataType::F64 => double_fixed6(v),
        };
        Ok(text)
    }
}

/// The number a byte sequence holds is below 2^(8 * length).
proof fn lemma_le_nat_upper(b: Seq<u8>)
    ensures
        le_nat(b) < pow2(8 * b.len()),
    decreases b.len(),
{
    if b.len() == 0 {
        lemma2_to64();
    } else {
        let rest = b.drop_first();
        lemma_le_nat_upper(rest);
        lemma_pow2_adds(8, 8 * rest.len());
        lemma2_to64();
        let rv = le_nat(rest);
        assert(b[0] + 256 * rv < 256 * pow2(8 * rest.len())) by (nonlinear_arith)
            requires
                b[0] < 256,
                rv < pow2(8 * rest.len()),
        ;
        assert(pow2(8 * b.len()) == pow2(8) * pow2(8 * rest.len()));
    }
}

/// As `lemma_le_nat_upper`, big-endian.
proof fn lemma_be_nat_upper(b: Seq<u8>)
    ensures
        be_nat(b) < pow2(8 * b.len()),
    decreases b.len(),
{
    if b.len() == 0 {
        lemma2_to64();
    } else {
        let rest = b.drop_last();
        lemma_be_nat_upper(rest);
        lemma_pow2_adds(8 * rest.len(), 8);
        lemma2_to64();
        let rv = be_nat(rest);
        assert(256 * rv + b.last() < pow2(8 * rest.len()) * 256) by (nonlinear_arith)
            requires
                b.last() < 256,
                rv < pow2(8 * rest.len()),
        ;
        assert(pow2(8 * b.len()) == pow2(8 * rest.len()) * pow2(8));
    }
}

proof fn lemma_scalar_upper(b: Seq<u8>, order: ByteOrder)
    ensures
        scalar_nat(b, order) < pow2(8 * b.len()),
{
    if order == ByteOrder::Little {
        lemma_le_nat_upper(b);
    } else {
        lemma_be_nat_upper(b);
    }
}

/// Reads the first `w` bytes as a little-endian number.
fn read_le(bytes: &[u8], w: usize) -> (v: u64)
    requires
        w <= 8,
        bytes@.len() >= w,
    ensures
        v as nat == le_nat(bytes@.take(w as int)),
{
    let mut v: u64 = 0;
    let mut i: usize = w;
    proof {
        assert(bytes@.subrange(w as int, w as int) =~= Seq::<u8>::empty());
    }
    while i > 0
        invariant
            i <= w,
            w <= 8,
            bytes@.len() >= w,
            v as nat == le_nat(bytes@.subrange(i as int, w as int)),
        decreases i,
    {
        proof {
            lemma_le_nat_upper(bytes@.subrange(i as int, w as int));
            lemma2_to64();
            lemma2_to64_rest();
            let width = 8 * bytes@.subrange(i as int, w as int).len();
            if width < 56 {
                lemma_pow2_strictly_increases(width, 56);
            }
            assert(v < pow2(56));
        }
        i = i - 1;
        let b = bytes[i];
        v = v * 256 + (b as u64);
        proof {
            let s = bytes@.subrange(i as int, w as int);
            assert(s.drop_first() =~= bytes@.subrange(i + 1, w as int));
            assert(le_nat(s) == (s[0] + 256 * le_nat(s.drop_first())) as nat);
            assert(s[0] == b);
        }
    }
    proof {
        assert(bytes@.subrange(0, w as int) =~= bytes@.take(w as int));
    }
    v
}

/// Reads the first `w` bytes as a big-endian number.
fn read_be(bytes: &[u8], w: usize) -> (v: u64)
    requires
        w <= 8,
        bytes@.len() >= w,
    ensures
        v as nat == be_nat(bytes@.take(w as int)),
{
    let mut v: u64 = 0;
    let mut i: usize = 0;
    proof {
        assert(bytes@.take(0int) =~= Seq::<u8>::empty());
    }
    while i < w
        invariant
            i <= w,
            w <= 8,
            bytes@.len() >= w,
            v as nat == be_nat(bytes@.take(i as int)),
        decreases w - i,
    {
        proof {
            lemma_be_nat_upper(bytes@.take(i as int));
            lemma2_to64();
            lemma2_to64_rest();
            let width = 8 * bytes@.take(i as int).len();
            if width < 56 {
                lemma_pow2_strictly_increases(width, 56);
            }
            assert(v < pow2(56));
        }
        let b = bytes[i];
        v = v * 256 + (b as u64);
        i = i + 1;
        proof {
            let s = bytes@.take(i as int);
            assert(s.drop_last() =~= bytes@.take(i - 1));
            assert(s.last() == b);
            assert(be_nat(s) == (256 * be_nat(s.drop_last()) + s.last()) as nat);
        }
    }
    v
}

/// Writes the `w`-bit two's complement value whose unsigned form is `v`;
/// `half` is 2^(w-1).
fn signed_dec_string(v: u64, half: u64) -> (r: String)
    requires
        half >= 1,
        v < 2 * (half as int),
    ensures
        r@ == signed_dec(v as nat, half as nat),
{
    if v < half {
        u64_dec_string(v)
    } else {
        let mut s = String::new();
        proof {
            reveal_strlit("-");
            assert("-"@ =~= seq!['-']);
        }
        s.append("-");
        let mag = half - (v - half);
        append_u64_dec(&mut s, mag);
        proof {
            assert(s@ =~= seq!['-'] + dec_str((2 * half - v) as nat));
        }
        s
    }
}

} // verus!
