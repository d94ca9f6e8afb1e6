//! Numbers in text: the base64 form of a value's encoding, for carriers that
//! take strings and not bytes, and wrapper types that mark a number as one to
//! be carried so.

use crate::decode::Decode;
use crate::encode::Encode;
use crate::error::CodecError;
use crate::format::{decoded, encoding, max_size, zeros};
use crate::helpers::const_copy_slice;
use crate::lemmas::{lemma_decoded_agrees, lemma_stored};
use vstd::prelude::*;
use vstd::slice::slice_subrange;
use vstd::std_specs::convert::FromSpecImpl;

verus! {

/// A `u16` that is carried in the text form of its encoding.
#[derive(Debug, Clone, Copy, PartialEq, Eq, PartialOrd, Ord, Hash, Structural)]
pub struct VlenU16(pub u16);

/// A `u32` that is carried in the text form of its encoding.
#[derive(Debug, Clone, Copy, PartialEq, Eq, PartialOrd, Ord, Hash, Structural)]
pub struct VlenU32(pub u32);

/// A `u64` that is carried in the text form of its encoding.
#[derive(Debug, Clone, Copy, PartialEq, Eq, PartialOrd, Ord, Hash, Structural)]
pub struct VlenU64(pub u64);

/// A `u128` that is carried in the text form of its encoding.
#[derive(Debug, Clone, Copy, PartialEq, Eq, PartialOrd, Ord, Hash, Structural)]
pub struct VlenU128(pub u128);

/// A `i16` that is carried in the text form of its encoding.
#[derive(Debug, Clone, Copy, PartialEq, Eq, PartialOrd, Ord, Hash, Structural)]
pub struct VlenI16(pub i16);

/// A `i32` that is carried in the text form of its encoding.
#[derive(Debug, Clone, Copy, PartialEq, Eq, PartialOrd, Ord, Hash, Structural)]
pub struct VlenI32(pub i32);

/// A `i64` that is carried in the text form of its encoding.
#[derive(Debug, Clone, Copy, PartialEq, Eq, PartialOrd, Ord, Hash, Structural)]
pub struct VlenI64(pub i64);

/// A `i128` that is carried in the text form of its encoding.
#[derive(Debug, Clone, Copy, PartialEq, Eq, PartialOrd, Ord, Hash, Structural)]
pub struct VlenI128(pub i128);

impl From<u16> for VlenU16 {
    fn from(value: u16) -> (wrapped: Self) {
        VlenU16(value)
    }
}

impl FromSpecImpl<u16> for VlenU16 {
    open spec fn obeys_from_spec() -> bool {
        true
    }

    open spec fn from_spec(value: u16) -> Self {
        VlenU16(value)
    }
}

impl core::ops::Deref for VlenU16 {
    type Target = u16;

    fn deref(&self) -> (inner: &u16)
        ensures
            *inner == self.0,
    {
        &self.0
    }
}

impl core::ops::DerefMut for VlenU16 {
    fn deref_mut(&mut self) -> (inner: &mut u16)
        ensures
            *inner == old(self).0,
            final(self).0 == *final(inner),
    {
        &mut self.0
    }
}

impl VlenU16 {
    /// The text form of the value: the base64 of its encoding.
    pub fn to_text(&self) -> (text: String)
        ensures
            text@ == base64_text(
                encoding(<u16 as Encode>::width(), <u16 as Encode>::wire_value(self.0)),
            ),
    {
        to_base64::<u16>(self.0)
    }

    /// The value that a text form stands for, if it stands for one.
    pub fn from_text(text: &str) -> (r: Result<Self, TextError>)
        ensures
            match text_value::<u16>(base64_bytes(text@)) {
                Ok(value) => r == Ok::<Self, TextError>(VlenU16(value)),
                Err(e) => r == Err::<Self, TextError>(e),
            },
    {
        match from_base64::<u16>(text) {
            Ok(value) => Ok(VlenU16(value)),
            Err(e) => Err(e),
        }
    }
}

impl From<u32> for VlenU32 {
    fn from(value: u32) -> (wrapped: Self) {
        VlenU32(value)
    }
}

impl FromSpecImpl<u32> for VlenU32 {
    open spec fn obeys_from_spec() -> bool {
        true
    }

    open spec fn from_spec(value: u32) -> Self {
        VlenU32(value)
    }
}

impl core::ops::Deref for VlenU32 {
    type Target = u32;

    fn deref(&self) -> (inner: &u32)
        ensures
            *inner == self.0,
    {
        &self.0
    }
}

impl core::ops::DerefMut for VlenU32 {
    fn deref_mut(&mut self) -> (inner: &mut u32)
        ensures
            *inner == old(self).0,
            final(self).0 == *final(inner),
    {
        &mut self.0
    }
}

impl VlenU32 {
    /// The text form of the value: the base64 of its encoding.
    pub fn to_text(&self) -> (text: String)
        ensures
            text@ == base64_text(
                encoding(<u32 as Encode>::width(), <u32 as Encode>::wire_value(self.0)),
            ),
    {
        to_base64::<u32>(self.0)
    }

    /// The value that a text form stands for, if it stands for one.
    pub fn from_text(text: &str) -> (r: Result<Self, TextError>)
        ensures
            match text_value::<u32>(base64_bytes(text@)) {
                Ok(value) => r == Ok::<Self, TextError>(VlenU32(value)),
                Err(e) => r == Err::<Self, TextError>(e),
            },
    {
        match from_base64::<u32>(text) {
            Ok(value) => Ok(VlenU32(value)),
            Err(e) => Err(e),
        }
    }
}

impl From<u64> for VlenU64 {
    fn from(value: u64) -> (wrapped: Self) {
        VlenU64(value)
    }
}

impl FromSpecImpl<u64> for VlenU64 {
    open spec fn obeys_from_spec() -> bool {
        true
    }

    open spec fn from_spec(value: u64) -> Self {
        VlenU64(value)
    }
}

impl core::ops::Deref for VlenU64 {
    type Target = u64;

    fn deref(&self) -> (inner: &u64)
        ensures
            *inner == self.0,
    {
        &self.0
    }
}

impl core::ops::DerefMut for VlenU64 {
    fn deref_mut(&mut self) -> (inner: &mut u64)
        ensures
            *inner == old(self).0,
            final(self).0 == *final(inner),
    {
        &mut self.0
    }
}

impl VlenU64 {
    /// The text form of the value: the base64 of its encoding.
    pub fn to_text(&self) -> (text: String)
        ensures
            text@ == base64_text(
                encoding(<u64 as Encode>::width(), <u64 as Encode>::wire_value(self.0)),
            ),
    {
        to_base64::<u64>(self.0)
    }

    /// The value that a text form stands for, if it stands for one.
    pub fn from_text(text: &str) -> (r: Result<Self, TextError>)
        ensures
            match text_value::<u64>(base64_bytes(text@)) {
                Ok(value) => r == Ok::<Self, TextError>(VlenU64(value)),
                Err(e) => r == Err::<Self, TextError>(e),
            },
    {
        match from_base64::<u64>(text) {
            Ok(value) => Ok(VlenU64(value)),
            Err(e) => Err(e),
        }
    }
}

impl From<u128> for VlenU128 {
    fn from(value: u128) -> (wrapped: Self) {
        VlenU128(value)
    }
}

impl FromSpecImpl<u128> for VlenU128 {
    open spec fn obeys_from_spec() -> bool {
        true
    }

    open spec fn from_spec(value: u128) -> Self {
        VlenU128(value)
    }
}

impl core::ops::Deref for VlenU128 {
    type Target = u128;

    fn deref(&self) -> (inner: &u128)
        ensures
            *inner == self.0,
    {
        &self.0
    }
}

impl core::ops::DerefMut for VlenU128 {
    fn deref_mut(&mut self) -> (inner: &mut u128)
        ensures
            *inner == old(self).0,
            final(self).0 == *final(inner),
    {
        &mut self.0
    }
}

impl VlenU128 {
    /// The text form of the value: the base64 of its encoding.
    pub fn to_text(&self) -> (text: String)
        ensures
            text@ == base64_text(
                encoding(<u128 as Encode>::width(), <u128 as Encode>::wire_value(self.0)),
            ),
    {
        to_base64::<u128>(self.0)
    }

    /// The value that a text form stands for, if it stands for one.
    pub fn from_text(text: &str) -> (r: Result<Self, TextError>)
        ensures
            match text_value::<u128>(base64_bytes(text@)) {
                Ok(value) => r == Ok::<Self, TextError>(VlenU128(value)),
                Err(e) => r == Err::<Self, TextError>(e),
            },
    {
        match from_base64::<u128>(text) {
            Ok(value) => Ok(VlenU128(value)),
            Err(e) => Err(e),
        }
    }
}

impl From<i16> for VlenI16 {
    fn from(value: i16) -> (wrapped: Self) {
        VlenI16(value)
    }
}

impl FromSpecImpl<i16> for VlenI16 {
    open spec fn obeys_from_spec() -> bool {
        true
    }

    open spec fn from_spec(value: i16) -> Self {
        VlenI16(value)
    }
}

impl core::ops::Deref for VlenI16 {
    type Target = i16;

    fn deref(&self) -> (inner: &i16)
        ensures
            *inner == self.0,
    {
        &self.0
    }
}

impl core::ops::DerefMut for VlenI16 {
    fn deref_mut(&mut self) -> (inner: &mut i16)
        ensures
            *inner == old(self).0,
            final(self).0 == *final(inner),
    {
        &mut self.0
    }
}

impl VlenI16 {
    /// The text form of the value: the base64 of its encoding.
    pub fn to_text(&self) -> (text: String)
        ensures
            text@ == base64_text(
                encoding(<i16 as Encode>::width(), <i16 as Encode>::wire_value(self.0)),
            ),
    {
        to_base64::<i16>(self.0)
    }

    /// The value that a text form stands for, if it stands for one.
    pub fn from_text(text: &str) -> (r: Result<Self, TextError>)
        ensures
            match text_value::<i16>(base64_bytes(text@)) {
                Ok(value) => r == Ok::<Self, TextError>(VlenI16(value)),
                Err(e) => r == Err::<Self, TextError>(e),
            },
    {
        match from_base64::<i16>(text) {
            Ok(value) => Ok(VlenI16(value)),
            Err(e) => Err(e),
        }
    }
}

impl From<i32> for VlenI32 {
    fn from(value: i32) -> (wrapped: Self) {
        VlenI32(value)
    }
}

impl FromSpecImpl<i32> for VlenI32 {
    open spec fn obeys_from_spec() -> bool {
        true
    }

    open spec fn from_spec(value: i32) -> Self {
        VlenI32(value)
    }
}

impl core::ops::Deref for VlenI32 {
    type Target = i32;

    fn deref(&self) -> (inner: &i32)
        ensures
            *inner == self.0,
    {
        &self.0
    }
}

impl core::ops::DerefMut for VlenI32 {
    fn deref_mut(&mut self) -> (inner: &mut i32)
        ensures
            *inner == old(self).0,
            final(self).0 == *final(inner),
    {
        &mut self.0
    }
}

impl VlenI32 {
    /// The text form of the value: the base64 of its encoding.
    pub fn to_text(&self) -> (text: String)
        ensures
            text@ == base64_text(
                encoding(<i32 as Encode>::width(), <i32 as Encode>::wire_value(self.0)),
            ),
    {
        to_base64::<i32>(self.0)
    }

    /// The value that a text form stands for, if it stands for one.
    pub fn from_text(text: &str) -> (r: Result<Self, TextError>)
        ensures
            match text_value::<i32>(base64_bytes(text@)) {
                Ok(value) => r == Ok::<Self, TextError>(VlenI32(value)),
                Err(e) => r == Err::<Self, TextError>(e),
            },
    {
        match from_base64::<i32>(text) {
            Ok(value) => Ok(VlenI32(value)),
            Err(e) => Err(e),
        }
    }
}

impl From<i64> for VlenI64 {
    fn from(value: i64) -> (wrapped: Self) {
        VlenI64(value)
    }
}

impl FromSpecImpl<i64> for VlenI64 {
    open spec fn obeys_from_spec() -> bool {
        true
    }

    open spec fn from_spec(value: i64) -> Self {
        VlenI64(value)
    }
}

impl core::ops::Deref for VlenI64 {
    type Target = i64;

    fn deref(&self) -> (inner: &i64)
        ensures
            *inner == self.0,
    {
        &self.0
    }
}

impl core::ops::DerefMut for VlenI64 {
    fn deref_mut(&mut self) -> (inner: &mut i64)
        ensures
            *inner == old(self).0,
            final(self).0 == *final(inner),
    {
        &mut self.0
    }
}

impl VlenI64 {
    /// The text form of the value: the base64 of its encoding.
    pub fn to_text(&self) -> (text: String)
        ensures
            text@ == base64_text(
                encoding(<i64 as Encode>::width(), <i64 as Encode>::wire_value(self.0)),
            ),
    {
        to_base64::<i64>(self.0)
    }

    /// The value that a text form stands for, if it stands for one.
    pub fn from_text(text: &str) -> (r: Result<Self, TextError>)
        ensures
            match text_value::<i64>(base64_bytes(text@)) {
                Ok(value) => r == Ok::<Self, TextError>(VlenI64(value)),
                Err(e) => r == Err::<Self, TextError>(e),
            },
    {
        match from_base64::<i64>(text) {
            Ok(value) => Ok(VlenI64(value)),
            Err(e) => Err(e),
        }
    }
}

impl From<i128> for VlenI128 {
    fn from(value: i128) -> (wrapped: Self) {
        VlenI128(value)
    }
}

impl FromSpecImpl<i128> for VlenI128 {
    open spec fn obeys_from_spec() -> bool {
        true
    }

    open spec fn from_spec(value: i128) -> Self {
        VlenI128(value)
    }
}

impl core::ops::Deref for VlenI128 {
    type Target = i128;

    fn deref(&self) -> (inner: &i128)
        ensures
            *inner == self.0,
    {
        &self.0
    }
}

impl core::ops::DerefMut for VlenI128 {
    fn deref_mut(&mut self) -> (inner: &mut i128)
        ensures
            *inner == old(self).0,
            final(self).0 == *final(inner),
    {
        &mut self.0
    }
}

impl VlenI128 {
    /// The text form of the value: the base64 of its encoding.
    pub fn to_text(&self) -> (text: String)
        ensures
            text@ == base64_text(
                encoding(<i128 as Encode>::width(), <i128 as Encode>::wire_value(self.0)),
            ),
    {
        to_base64::<i128>(self.0)
    }

    /// The value that a text form stands for, if it stands for one.
    pub fn from_text(text: &str) -> (r: Result<Self, TextError>)
        ensures
            match text_value::<i128>(base64_bytes(text@)) {
                Ok(value) => r == Ok::<Self, TextError>(VlenI128(value)),
                Err(e) => r == Err::<Self, TextError>(e),
            },
    {
        match from_base64::<i128>(text) {
            Ok(value) => Ok(VlenI128(value)),
            Err(e) => Err(e),
        }
    }
}

/// Why a text is not the text form of a value.
#[derive(Clone, Copy, Debug, PartialEq, Eq, Structural)]
pub enum TextError {
    /// The text is not base64.
    InvalidBase64,
    /// The text holds more bytes than the longest encoding of the type.
    TooLong,
}

/// The base64 text of some bytes: what `base64::encode` returns for them.
pub uninterp spec fn base64_text(bytes: Seq<u8>) -> Seq<char>;

/// The bytes that a base64 text holds, or `None` where the text is not
/// base64: what `base64::decode` returns for it, the error left aside.
pub uninterp spec fn base64_bytes(text: Seq<char>) -> Option<Seq<u8>>;

#[verifier::external_type_specification]
#[verifier::external_body]
pub struct ExDecodeError(base64::DecodeError);

/// Calls `base64::encode`, which encodes with the standard alphabet and with
/// padding. The result is named, not described. The one panic of the outside
/// function is on a length whose encoded size does not fit in `usize`, which
/// the precondition leaves out.
#[verifier::external_body]
fn base64_encode(bytes: &[u8]) -> (text: String)
    requires
        bytes@.len() / 3 * 4 + 4 <= usize::MAX,
    ensures
        text@ == base64_text(bytes@),
{
    base64::encode(bytes)
}

/// Calls `base64::decode`, which decodes the standard alphabet with padding.
/// The bytes, or that there are none, are named, not described; of the error
/// nothing is said. The outside function panics only where the length of the
/// input plus seven overflows `usize`, and no `str` is that long.
#[verifier::external_body]
fn base64_decode(text: &str) -> (r: Result<Vec<u8>, base64::DecodeError>)
    ensures
        r matches Ok(bytes) ==> base64_bytes(text@) == Some(bytes@),
        r is Err ==> base64_bytes(text@) is None,
{
    base64::decode(text)
}

/// The text form of a value: the base64 of its encoding.
pub fn to_base64<T: Encode + Copy>(value: T) -> (text: String)
    ensures
        text@ == base64_text(encoding(T::width(), T::wire_value(value))),
{
    proof {
        T::lemma_wire_value(value);
        lemma_stored(T::width(), T::wire_value(value));
    }
    let mut buf = [0u8; 17];
    match T::encode(&mut buf, value) {
        Ok(len) => {
            let bytes = slice_subrange(&buf, 0, len);
            assert(bytes@ =~= encoding(T::width(), T::wire_value(value)));
            base64_encode(bytes)
        },
        Err(_) => unreached(),
    }
}

/// The value at the start of `bytes`, taken as the bytes of an encoding with
/// nothing behind them: zeros stand in for what a full window would hold
/// beyond them.
pub fn decode_padded<T: Decode>(bytes: &[u8]) -> (r: Result<T, CodecError>)
    requires
        bytes@.len() <= max_size(T::width()),
    ensures
        r == Ok::<T, CodecError>(padded_value::<T>(bytes@)),
{
    proof {
        T::lemma_width();
    }
    let mut window = [0u8; 17];
    const_copy_slice(bytes, &mut window, 0, bytes.len());
    proof {
        let padded = bytes@ + zeros((max_size(T::width()) - bytes@.len()) as nat);
        if padded.len() > 0 {
            lemma_decoded_agrees(T::width(), padded, window@);
        }
    }
    match T::decode(&window) {
        Ok((value, _)) => Ok(value),
        Err(e) => Err(e),
    }
}

/// The value that `bytes`, filled up with zeros to the longest encoding of
/// the type, decode to.
pub open spec fn padded_value<T: Decode>(bytes: Seq<u8>) -> T {
    T::from_wire(
        decoded(T::width(), bytes + zeros((max_size(T::width()) - bytes.len()) as nat)).0,
    )
}

/// What the bytes of a text form, if it has any, stand for.
pub open spec fn text_value<T: Decode>(bytes: Option<Seq<u8>>) -> Result<T, TextError> {
    match bytes {
        None => Err(TextError::InvalidBase64),
        Some(bytes) => if bytes.len() > max_size(T::width()) {
            Err(TextError::TooLong)
        } else {
            Ok(padded_value::<T>(bytes))
        },
    }
}

/// The value that a text form stands for: the text is taken as base64, and
/// the bytes it holds as an encoding with nothing behind it.
pub fn from_base64<T: Decode>(text: &str) -> (r: Result<T, TextError>)
    ensures
        r == text_value::<T>(base64_bytes(text@)),
{
    proof {
        T::lemma_width();
    }
    match base64_decode(text) {
        Ok(bytes) => {
            if bytes.len() > T::MAX_ENCODED_SIZE {
                Err(TextError::TooLong)
            } else {
                match decode_padded::<T>(bytes.as_slice()) {
                    Ok(value) => Ok(value),
                    Err(_) => unreached(),
                }
            }
        },
        Err(_) => Err(TextError::InvalidBase64),
    }
}

} // verus!
