//! Values: reals, strings and arrays in one word of 64 bits.

use crate::binary64::{
    lemma_bool_round_trip, lemma_i32_round_trip, lemma_nearest_integer, lemma_u32_round_trip,
    nearest, Real,
};
use crate::symbol::Symbol;
use crate::vm::array::{live, released, Array, Heap, MAX_INDEX};
use vstd::std_specs::convert::{FromSpec, FromSpecImpl, TryFromSpec, TryFromSpecImpl};
use vstd::prelude::*;

verus! {

/// The bit pattern that stands for every real that is not a number.
pub const CANONICAL_NAN: u64 = 0x7ff8_0000_0000_0000;

/// The least bit pattern that is not a real: the first word with the tag of a string.
pub const BOXED: u64 = 0xfff0_0000_0000_0000;

/// The tag of a string, in the top 16 bits of the word.
pub const STRING_TAG: u64 = 0xfff0;

/// The tag of an array, in the top 16 bits of the word.
pub const ARRAY_TAG: u64 = 0xfff1;

/// A value of the language, in one word of 64 bits.
///
/// A word whose top 16 bits lie outside `0xfff0..=0xffff` is a real, the bits being those of
/// the real. In any other word the low 4 bits of the top 16 say what the word is, `0` for a
/// string and `1` for an array, and the low 48 bits hold the symbol of the string or the
/// handle of the array.
///
/// A value of the kind of an array stands for one reference to the array.
#[derive(Clone, Copy, Debug, PartialEq, Eq, Hash)]
pub struct Value(u64);

/// What a value holds.
#[derive(Clone, Copy, Debug, PartialEq, Eq, Structural)]
pub enum Data {
    Real(Real),
    String(Symbol),
    Array(Array),
}

/// The kinds of values.
#[derive(Clone, Copy, Debug, PartialEq, Eq, Hash, Structural)]
pub enum Type {
    Real,
    String,
    Array,
}

/// The error of a conversion from a value of another kind.
#[derive(Clone, Copy, Debug, PartialEq, Eq)]
pub struct TryFromValueError(pub ());

/// The top 16 bits of a word.
pub open spec fn tag(bits: u64) -> u64 {
    bits >> 48
}

/// The low 48 bits of a word.
pub open spec fn payload(bits: u64) -> u64 {
    bits & 0xffff_ffff_ffff
}

/// Whether a word is not a real: its top 16 bits lie in `0xfff0..=0xffff`.
pub open spec fn boxed(bits: u64) -> bool {
    tag(bits) & !0xfu64 == 0xfff0
}

/// Whether a word is one that a value can be: a real, a string whose symbol fits 32 bits, or
/// an array.
pub open spec fn valid(bits: u64) -> bool {
    !boxed(bits) || (tag(bits) == STRING_TAG && payload(bits) <= u32::MAX) || tag(bits)
        == ARRAY_TAG
}

/// What a valid word holds.
pub open spec fn decode(bits: u64) -> Data {
    if !boxed(bits) {
        Data::Real(Real { bits })
    } else if tag(bits) == STRING_TAG {
        Data::String(Symbol(payload(bits) as u32))
    } else {
        Data::Array(Array { index: payload(bits) })
    }
}

/// The word of a real: its own bits. A real that is not a number becomes the canonical one
/// that is not; so does negative infinity, whose bits are those of a string.
pub open spec fn encode_real(value: Real) -> u64 {
    if value.is_nan() || value.bits >= BOXED {
        CANONICAL_NAN
    } else {
        value.bits
    }
}

/// The word of a string.
pub open spec fn encode_symbol(symbol: Symbol) -> u64 {
    (STRING_TAG << 48) | (symbol.0 as u64)
}

/// The word of an array.
pub open spec fn encode_array(array: Array) -> u64 {
    (ARRAY_TAG << 48) | array.index
}

/// A word is boxed exactly when it is `BOXED` or greater; a tag and a payload of 48 bits are
/// found again in the word they make.
pub proof fn lemma_words(bits: u64, low: u64)
    ensures
        boxed(bits) <==> bits >= BOXED,
        low <= MAX_INDEX ==> tag((STRING_TAG << 48) | low) == STRING_TAG && payload(
            (STRING_TAG << 48) | low,
        ) == low && boxed((STRING_TAG << 48) | low),
        low <= MAX_INDEX ==> tag((ARRAY_TAG << 48) | low) == ARRAY_TAG && payload(
            (ARRAY_TAG << 48) | low,
        ) == low && boxed((ARRAY_TAG << 48) | low),
        tag(bits) == ARRAY_TAG ==> boxed(bits) && payload(bits) <= MAX_INDEX && tag(bits)
            != STRING_TAG,
        tag(bits) == STRING_TAG ==> boxed(bits),
        payload(bits) <= MAX_INDEX,
{
    assert((bits >> 48) & !0xfu64 == 0xfff0 <==> bits >= 0xfff0_0000_0000_0000) by (bit_vector);
    assert(low <= 0xffff_ffff_ffff ==> (((0xfff0u64 << 48) | low) >> 48) == 0xfff0 && ((0xfff0u64
        << 48) | low) & 0xffff_ffff_ffff == low && ((((0xfff0u64 << 48) | low) >> 48) & !0xfu64)
        == 0xfff0) by (bit_vector);
    assert(low <= 0xffff_ffff_ffff ==> (((0xfff1u64 << 48) | low) >> 48) == 0xfff1 && ((0xfff1u64
        << 48) | low) & 0xffff_ffff_ffff == low && ((((0xfff1u64 << 48) | low) >> 48) & !0xfu64)
        == 0xfff0) by (bit_vector);
    assert((bits >> 48) == 0xfff1 ==> (bits >> 48) & !0xfu64 == 0xfff0) by (bit_vector);
    assert((bits >> 48) == 0xfff0 ==> (bits >> 48) & !0xfu64 == 0xfff0) by (bit_vector);
    assert(bits & 0xffff_ffff_ffff <= 0xffff_ffff_ffff) by (bit_vector);
}

impl Value {
    /// The word of the value.
    pub closed spec fn bits(self) -> u64 {
        self.0
    }

    #[verifier::type_invariant]
    spec fn inv(self) -> bool {
        valid(self.0)
    }

    /// What the value holds.
    pub open spec fn spec_data(self) -> Data {
        decode(self.bits())
    }

    /// The word of the value.
    pub fn to_bits(self) -> (bits: u64)
        ensures
            bits == self.bits(),
            valid(bits),
    {
        proof {
            use_type_invariant(&self);
        }
        self.0
    }

    /// The value with the given word, where the word is one that a value can be.
    pub fn from_bits(bits: u64) -> (value: Option<Value>)
        ensures
            value is Some <==> valid(bits),
            value matches Some(v) ==> v.bits() == bits,
    {
        let top = bits >> 48;
        let low = bits & 0xffff_ffff_ffff;
        if top & !0xf != 0xfff0 || (top == STRING_TAG && low <= 0xffff_ffff) || top == ARRAY_TAG {
            Some(Value(bits))
        } else {
            None
        }
    }

    /// What the value holds: a real, the symbol of a string, or the handle of an array. The
    /// handle is read off the word; no reference to the array is taken.
    pub fn data(self) -> (data: Data)
        ensures
            data == self.spec_data(),
    {
        proof {
            use_type_invariant(&self);
        }
        let Value(value) = self;
        let tag = value >> 48;
        let payload = value & 0xffff_ffff_ffff;
        if tag & !0xf != 0xfff0 {
            return Data::Real(Real { bits: value });
        }
        if tag == STRING_TAG {
            Data::String(Symbol(payload as u32))
        } else {
            Data::Array(Array { index: payload })
        }
    }

    /// The value of real zero.
    pub closed spec fn spec_zero() -> Value {
        Value(0)
    }

    /// The value of real zero.
    pub fn zero() -> (made: Value)
        ensures
            made == Value::spec_zero(),
            made.bits() == 0,
            made.spec_data() == Data::Real(Real::spec_zero()),
    {
        proof {
            lemma_words(0, 0);
        }
        Value(0)
    }

    /// Real zero is a real.
    pub proof fn lemma_zero()
        ensures
            Value::spec_zero().bits() == 0,
            Value::spec_zero().spec_data() == Data::Real(Real::spec_zero()),
    {
        lemma_words(0, 0);
    }

    /// Whether the value is an array.
    pub fn is_array(self) -> (array: bool)
        ensures
            array == (self.spec_data() is Array),
    {
        proof {
            use_type_invariant(&self);
            lemma_words(self.0, 0);
        }
        self.0 >> 48 == ARRAY_TAG
    }

    /// The value of a real.
    pub fn from_real(value: Real) -> (made: Value)
        ensures
            made.bits() == encode_real(value),
            made == Value::with_bits(encode_real(value)),
            !value.is_nan() && value.bits < BOXED ==> made.spec_data() == Data::Real(value),
    {
        proof {
            lemma_words(value.bits, 0);
            lemma_words(CANONICAL_NAN, 0);
        }
        if value.nan() || value.bits >= BOXED {
            Value(CANONICAL_NAN)
        } else {
            Value(value.bits)
        }
    }

    /// The value of a string.
    pub fn from_symbol(symbol: Symbol) -> (made: Value)
        ensures
            made.bits() == encode_symbol(symbol),
            made == Value::with_bits(encode_symbol(symbol)),
            made.spec_data() == Data::String(symbol),
    {
        proof {
            lemma_words(0, symbol.0 as u64);
        }
        Value((STRING_TAG << 48) | (symbol.0 as u64))
    }

    /// The value of an array, where the handle fits 48 bits.
    pub fn from_array(array: Array) -> (made: Value)
        requires
            array.index <= MAX_INDEX,
        ensures
            made.bits() == encode_array(array),
            made == Value::with_bits(encode_array(array)),
            made.spec_data() == Data::Array(array),
    {
        proof {
            lemma_words(0, array.index);
        }
        Value((ARRAY_TAG << 48) | array.index)
    }
}

impl Value {
    /// The value with the given word.
    pub closed spec fn with_bits(bits: u64) -> Value {
        Value(bits)
    }

    /// A value is the one with its word.
    pub proof fn lemma_with_bits(self)
        ensures
            Value::with_bits(self.bits()) == self,
    {
    }

    /// The value with a given word has that word.
    pub proof fn lemma_bits_of(bits: u64)
        ensures
            Value::with_bits(bits).bits() == bits,
    {
    }

    /// The real that the value holds, or the error where it holds none.
    pub open spec fn spec_real(self) -> Result<Real, TryFromValueError> {
        match self.spec_data() {
            Data::Real(value) => Ok(value),
            _ => Err(TryFromValueError(())),
        }
    }

    /// The real that the value holds.
    pub fn to_real(self) -> (held: Result<Real, TryFromValueError>)
        ensures
            held == self.spec_real(),
    {
        match self.data() {
            Data::Real(value) => Ok(value),
            _ => Err(TryFromValueError(())),
        }
    }

    /// The symbol of the string that the value holds, or the error where it holds none.
    pub open spec fn spec_symbol(self) -> Result<Symbol, TryFromValueError> {
        match self.spec_data() {
            Data::String(symbol) => Ok(symbol),
            _ => Err(TryFromValueError(())),
        }
    }

    /// The symbol of the string that the value holds.
    pub fn to_symbol(self) -> (held: Result<Symbol, TryFromValueError>)
        ensures
            held == self.spec_symbol(),
    {
        match self.data() {
            Data::String(symbol) => Ok(symbol),
            _ => Err(TryFromValueError(())),
        }
    }

    /// Gives up the reference that the value stands for: that to its array, where it holds
    /// one that lives, which is freed with its last reference. A real or a string stands for
    /// none, and nothing happens.
    pub fn release(self, heap: &mut Heap)
        requires
            old(heap).wf(),
            self.spec_data() matches Data::Array(array) ==> live(old(heap)@, array),
        ensures
            final(heap).wf(),
            final(heap)@ == match self.spec_data() {
                Data::Array(array) => released(old(heap)@, array),
                _ => old(heap)@,
            },
    {
        match self.data() {
            Data::Array(array) => {
                heap.release(array);
            },
            _ => {},
        }
    }
}

/// Every value is of one kind, and of one only: of the three ways to take a value for what it
/// holds, as a real, as a string or as an array, one succeeds.
pub proof fn lemma_one_kind(value: Value)
    ensures
        (value.spec_real() is Ok && value.spec_symbol() is Err && !(value.spec_data() is Array))
            || (value.spec_real() is Err && value.spec_symbol() is Ok && !(value.spec_data()
            is Array)) || (value.spec_real() is Err && value.spec_symbol() is Err
            && value.spec_data() is Array),
        value.spec_real() is Ok <==> !boxed(value.bits()),
        valid(value.bits()) ==> (value.spec_symbol() is Ok <==> tag(value.bits()) == STRING_TAG),
        valid(value.bits()) ==> (value.spec_data() is Array <==> tag(value.bits()) == ARRAY_TAG),
{
    lemma_words(value.bits(), 0);
}

/// A real that is a number, infinity excluded, is found again in the value made of it.
pub proof fn lemma_real_round_trip(number: Real)
    requires
        number.is_finite(),
    ensures
        <Value as FromSpec<Real>>::from_spec(number).spec_real() == Ok::<
            Real,
            TryFromValueError,
        >(number),
        <Real as TryFromSpec<Value>>::try_from_spec(<Value as FromSpec<Real>>::from_spec(number))
            == Ok::<Real, TryFromValueError>(number),
{
    lemma_words(number.bits, 0);
    Value::lemma_bits_of(encode_real(number));
}

/// The symbol of a string and the handle of an array are found again in the values made of
/// them.
pub proof fn lemma_boxed_round_trip(symbol: Symbol, array: Array)
    requires
        array.index <= MAX_INDEX,
    ensures
        Value::with_bits(encode_symbol(symbol)).spec_data() == Data::String(symbol),
        Value::with_bits(encode_array(array)).spec_data() == Data::Array(array),
{
    lemma_words(0, symbol.0 as u64);
    lemma_words(0, array.index);
    Value::lemma_bits_of(encode_symbol(symbol));
    Value::lemma_bits_of(encode_array(array));
}

/// Integers of 32 bits and truth values are found again in the values made of them.
pub proof fn lemma_integer_round_trip(signed: i32, unsigned: u32, truth: bool)
    ensures
        <i32 as TryFromSpec<Value>>::try_from_spec(<Value as FromSpec<i32>>::from_spec(signed))
            == Ok::<i32, TryFromValueError>(signed),
        <u32 as TryFromSpec<Value>>::try_from_spec(<Value as FromSpec<u32>>::from_spec(unsigned))
            == Ok::<u32, TryFromValueError>(unsigned),
        <bool as TryFromSpec<Value>>::try_from_spec(<Value as FromSpec<bool>>::from_spec(truth))
            == Ok::<bool, TryFromValueError>(truth),
{
    let from_signed = Real::spec_from_i32(signed);
    let from_unsigned = nearest(unsigned as nat, 1);
    let from_truth = nearest(if truth { 1nat } else { 0nat }, 1);
    lemma_i32_round_trip(signed);
    lemma_u32_round_trip(unsigned);
    lemma_bool_round_trip(truth);
    lemma_nearest_integer(unsigned as nat);
    lemma_nearest_integer(if truth { 1nat } else { 0nat });
    if signed < 0 {
        lemma_nearest_integer((-signed) as nat);
    } else {
        lemma_nearest_integer(signed as nat);
    }
    assert(from_signed.field() != 2047);
    lemma_words(from_signed.bits, 0);
    lemma_words(from_unsigned.bits, 0);
    lemma_words(from_truth.bits, 0);
    Value::lemma_bits_of(encode_real(from_signed));
    Value::lemma_bits_of(encode_real(from_unsigned));
    Value::lemma_bits_of(encode_real(from_truth));
}

impl From<Real> for Value {
    fn from(value: Real) -> (made: Value) {
        proof {
            Value::lemma_bits_of(encode_real(value));
        }
        let made = Value::from_real(value);
        proof {
            made.lemma_with_bits();
        }
        made
    }
}

impl FromSpecImpl<Real> for Value {
    open spec fn obeys_from_spec() -> bool {
        true
    }

    open spec fn from_spec(value: Real) -> Value {
        Value::with_bits(encode_real(value))
    }
}

impl From<Symbol> for Value {
    fn from(symbol: Symbol) -> (made: Value) {
        let made = Value::from_symbol(symbol);
        proof {
            made.lemma_with_bits();
        }
        made
    }
}

impl FromSpecImpl<Symbol> for Value {
    open spec fn obeys_from_spec() -> bool {
        true
    }

    open spec fn from_spec(symbol: Symbol) -> Value {
        Value::with_bits(encode_symbol(symbol))
    }
}

impl From<()> for Value {
    fn from(unit: ()) -> (made: Value) {
        Value::zero()
    }
}

impl FromSpecImpl<()> for Value {
    open spec fn obeys_from_spec() -> bool {
        true
    }

    open spec fn from_spec(unit: ()) -> Value {
        Value::spec_zero()
    }
}

impl From<i32> for Value {
    fn from(value: i32) -> (made: Value) {
        let made = Value::from_real(Real::from_i32(value));
        proof {
            made.lemma_with_bits();
        }
        made
    }
}

impl FromSpecImpl<i32> for Value {
    open spec fn obeys_from_spec() -> bool {
        true
    }

    open spec fn from_spec(value: i32) -> Value {
        Value::with_bits(encode_real(Real::spec_from_i32(value)))
    }
}

impl From<u32> for Value {
    fn from(value: u32) -> (made: Value) {
        let made = Value::from_real(Real::from_u32(value));
        proof {
            made.lemma_with_bits();
        }
        made
    }
}

impl FromSpecImpl<u32> for Value {
    open spec fn obeys_from_spec() -> bool {
        true
    }

    open spec fn from_spec(value: u32) -> Value {
        Value::with_bits(encode_real(nearest(value as nat, 1)))
    }
}

impl From<bool> for Value {
    fn from(value: bool) -> (made: Value) {
        let made = Value::from_real(Real::from_bool(value));
        proof {
            made.lemma_with_bits();
        }
        made
    }
}

impl FromSpecImpl<bool> for Value {
    open spec fn obeys_from_spec() -> bool {
        true
    }

    open spec fn from_spec(value: bool) -> Value {
        Value::with_bits(encode_real(nearest(if value { 1nat } else { 0nat }, 1)))
    }
}

impl TryFrom<Value> for Real {
    type Error = TryFromValueError;

    fn try_from(value: Value) -> (held: Result<Real, TryFromValueError>) {
        value.to_real()
    }
}

impl TryFromSpecImpl<Value> for Real {
    open spec fn obeys_try_from_spec() -> bool {
        true
    }

    open spec fn try_from_spec(value: Value) -> Result<Real, TryFromValueError> {
        value.spec_real()
    }
}

impl TryFrom<Value> for Symbol {
    type Error = TryFromValueError;

    fn try_from(value: Value) -> (held: Result<Symbol, TryFromValueError>) {
        value.to_symbol()
    }
}

impl TryFromSpecImpl<Value> for Symbol {
    open spec fn obeys_try_from_spec() -> bool {
        true
    }

    open spec fn try_from_spec(value: Value) -> Result<Symbol, TryFromValueError> {
        value.spec_symbol()
    }
}

impl TryFrom<Value> for i32 {
    type Error = TryFromValueError;

    fn try_from(value: Value) -> (held: Result<i32, TryFromValueError>) {
        match value.data() {
            Data::Real(number) => Ok(number.to_i32()),
            _ => Err(TryFromValueError(())),
        }
    }
}

impl TryFromSpecImpl<Value> for i32 {
    open spec fn obeys_try_from_spec() -> bool {
        true
    }

    open spec fn try_from_spec(value: Value) -> Result<i32, TryFromValueError> {
        match value.spec_data() {
            Data::Real(number) => Ok(number.spec_to_i32()),
            _ => Err(TryFromValueError(())),
        }
    }
}

impl TryFrom<Value> for u32 {
    type Error = TryFromValueError;

    fn try_from(value: Value) -> (held: Result<u32, TryFromValueError>) {
        match value.data() {
            Data::Real(number) => Ok(number.to_u32()),
            _ => Err(TryFromValueError(())),
        }
    }
}

impl TryFromSpecImpl<Value> for u32 {
    open spec fn obeys_try_from_spec() -> bool {
        true
    }

    open spec fn try_from_spec(value: Value) -> Result<u32, TryFromValueError> {
        match value.spec_data() {
            Data::Real(number) => Ok(number.spec_to_u32()),
            _ => Err(TryFromValueError(())),
        }
    }
}

impl TryFrom<Value> for bool {
    type Error = TryFromValueError;

    fn try_from(value: Value) -> (held: Result<bool, TryFromValueError>) {
        match value.data() {
            Data::Real(number) => Ok(number.to_bool()),
            _ => Err(TryFromValueError(())),
        }
    }
}

impl TryFromSpecImpl<Value> for bool {
    open spec fn obeys_try_from_spec() -> bool {
        true
    }

    open spec fn try_from_spec(value: Value) -> Result<bool, TryFromValueError> {
        match value.spec_data() {
            Data::Real(number) => Ok(number.spec_to_bool()),
            _ => Err(TryFromValueError(())),
        }
    }
}

impl Data {
    /// The kind of the data.
    pub open spec fn spec_ty(&self) -> Type {
        match self {
            Data::Real(_) => Type::Real,
            Data::String(_) => Type::String,
            Data::Array(_) => Type::Array,
        }
    }

    /// The kind of the data.
    pub fn ty(&self) -> (ty: Type)
        ensures
            ty == self.spec_ty(),
    {
        match *self {
            Data::Real(_) => Type::Real,
            Data::String(_) => Type::String,
            Data::Array(_) => Type::Array,
        }
    }
}

} // verus!
