//! Models of the boundary protocol: status codes, the tagged result, the
//! owned buffer, and validation of a caller-supplied view.

use vstd::prelude::*;
use vstd::string::StringSliceAdditionalSpecFns;
use vstd::utf8::decode_utf8;
use vstd::utf8::valid_utf8;

use crate::error::Error;

verus! {

/// The closed set of status codes a boundary call can report.
#[derive(Clone, Copy, Debug, PartialEq, Eq, Structural)]
pub enum ResultCode {
    /// The call succeeded
    Success,
    /// The call succeeded, but there was no data to return
    Empty,
    /// The caller passed an invalid argument
    InvalidArgument,
    /// The caller passed a string that is not valid UTF-8
    InvalidString,
    /// The caller passed a buffer that is not valid JSON or does not match
    /// the expected schema
    InvalidJson,
    /// The caller passed a null pointer
    NullPointer,
    /// The caller passed an improperly aligned pointer
    UnalignedPointer,
    /// The caller referenced a partition that does not exist
    PartitionDoesNotExist,
}

/// The numeric value each status code carries across the boundary.
pub open spec fn code_value(c: ResultCode) -> i8 {
    match c {
        ResultCode::Success => 0i8,
        ResultCode::Empty => 1i8,
        ResultCode::InvalidArgument => -1i8,
        ResultCode::InvalidString => -2i8,
        ResultCode::InvalidJson => -3i8,
        ResultCode::UnalignedPointer => -5i8,
        ResultCode::NullPointer => -4i8,
        ResultCode::PartitionDoesNotExist => -6i8,
    }
}

impl ResultCode {
    /// The numeric value of this code as it crosses the boundary.
    pub fn code(&self) -> (r: i8)
        ensures
            r == code_value(*self),
    {
        match self {
            ResultCode::Success => 0,
            ResultCode::Empty => 1,
            ResultCode::InvalidArgument => -1,
            ResultCode::InvalidString => -2,
            ResultCode::InvalidJson => -3,
            ResultCode::NullPointer => -4,
            ResultCode::UnalignedPointer => -5,
            ResultCode::PartitionDoesNotExist => -6,
        }
    }
}

/// The status code that reports each pipeline error across the boundary.
pub open spec fn code_of_error(e: Error) -> ResultCode {
    match e {
        Error::InvalidJson => ResultCode::InvalidJson,
        Error::PartitionDoesNotExist => ResultCode::PartitionDoesNotExist,
    }
}

impl From<Error> for ResultCode {
    fn from(e: Error) -> (r: ResultCode) {
        match e {
            Error::InvalidJson => ResultCode::InvalidJson,
            Error::PartitionDoesNotExist => ResultCode::PartitionDoesNotExist,
        }
    }
}

impl vstd::std_specs::convert::FromSpecImpl<Error> for ResultCode {
    open spec fn obeys_from_spec() -> bool {
        true
    }

    open spec fn from_spec(e: Error) -> ResultCode {
        code_of_error(e)
    }
}

/// An FFI-safe result: a status code, and a payload area that holds a value
/// exactly when the status is `Success`. `Empty` and the error codes carry
/// no payload, so a caller can never observe an uninitialized value.
pub struct FfiResult<T> {
    pub code: ResultCode,
    pub value: Option<T>,
}

impl<T> FfiResult<T> {
    /// The status code this result reports.
    pub open spec fn spec_code(self) -> ResultCode {
        self.code
    }

    /// The payload this result carries, when it carries one.
    pub open spec fn spec_value(self) -> Option<T> {
        self.value
    }

    /// The discriminated-union contract: a payload is present exactly when
    /// the status is `Success`.
    pub open spec fn wf(self) -> bool {
        self.spec_value() is Some <==> self.spec_code() == ResultCode::Success
    }

    /// A successful result carrying `value`.
    pub fn ok(value: T) -> (r: Self)
        ensures
            r.wf(),
            r.spec_code() == ResultCode::Success,
            r.spec_value() == Some(value),
    {
        Self { code: ResultCode::Success, value: Some(value) }
    }

    /// A successful result with no data to return.
    pub fn none() -> (r: Self)
        ensures
            r.wf(),
            r.spec_code() == ResultCode::Empty,
            r.spec_value() is None,
    {
        Self { code: ResultCode::Empty, value: None }
    }

    /// A failed result carrying only the error code.
    pub fn err(error: ResultCode) -> (r: Self)
        requires
            error != ResultCode::Success,
        ensures
            r.wf(),
            r.spec_code() == error,
            r.spec_value() is None,
    {
        Self { code: error, value: None }
    }

    /// The status code, as the caller reads it.
    pub fn status(&self) -> (c: ResultCode)
        ensures
            c == self.spec_code(),
    {
        self.code
    }

    /// Takes the result apart into its payload, which exists exactly when
    /// the status was `Success`.
    pub fn into_value(self) -> (v: Option<T>)
        ensures
            v == self.spec_value(),
    {
        self.value
    }
}

impl<T> From<Option<T>> for FfiResult<T> {
    fn from(v: Option<T>) -> (r: FfiResult<T>) {
        match v {
            Option::Some(value) => FfiResult::ok(value),
            Option::None => FfiResult::none(),
        }
    }
}

impl<T> vstd::std_specs::convert::FromSpecImpl<Option<T>> for FfiResult<T> {
    open spec fn obeys_from_spec() -> bool {
        true
    }

    open spec fn from_spec(v: Option<T>) -> FfiResult<T> {
        match v {
            Some(value) => (FfiResult { code: ResultCode::Success, value: Some(value) }),
            None => (FfiResult { code: ResultCode::Empty, value: None }),
        }
    }
}

impl<T> From<Result<T, Error>> for FfiResult<T> {
    fn from(v: Result<T, Error>) -> (r: FfiResult<T>) {
        match v {
            Ok(value) => FfiResult::ok(value),
            Err(error) => FfiResult::err(ResultCode::from(error)),
        }
    }
}

impl<T> vstd::std_specs::convert::FromSpecImpl<Result<T, Error>> for FfiResult<T> {
    open spec fn obeys_from_spec() -> bool {
        true
    }

    open spec fn from_spec(v: Result<T, Error>) -> FfiResult<T> {
        match v {
            Ok(value) => (FfiResult { code: ResultCode::Success, value: Some(value) }),
            Err(error) => (FfiResult { code: code_of_error(error), value: None }),
        }
    }
}

/// Bytes owned by the core and handed out across the boundary. The caller
/// keeps the value until it releases it, exactly once, through
/// `into_vec`; the core never touches the bytes again after handing them
/// out.
pub struct FfiBytes {
    data: Vec<u8>,
}

impl FfiBytes {
    /// The bytes this buffer carries.
    pub closed spec fn bytes(self) -> Seq<u8> {
        self.data@
    }

    /// Wraps an owned buffer for the trip across the boundary.
    pub fn new(buffer: Vec<u8>) -> (r: Self)
        ensures
            r.bytes() == buffer@,
    {
        Self { data: buffer }
    }

    /// The length of the buffer.
    pub fn len(&self) -> (n: usize)
        ensures
            n == self.bytes().len(),
    {
        self.data.len()
    }

    /// Releases the buffer, returning ownership of the bytes; consuming
    /// `self` makes a second release of the same buffer impossible.
    pub fn into_vec(self) -> (r: Vec<u8>)
        ensures
            r@ == self.bytes(),
    {
        self.data
    }
}

/// A caller-owned view of memory: an address and a length, valid only for
/// the duration of the call that receives it. The core validates it and
/// never retains it.
pub struct FfiSlice {
    pub data: usize,
    pub len: usize,
}

impl FfiSlice {
    /// Validates the view for elements of alignment `align`: a null address
    /// and a misaligned address each get their own error code, checked in
    /// that order.
    pub fn validate(&self, align: usize) -> (r: Result<(), ResultCode>)
        requires
            align >= 1,
        ensures
            r == if self.data == 0 {
                Err::<(), ResultCode>(ResultCode::NullPointer)
            } else if self.data % align != 0 {
                Err::<(), ResultCode>(ResultCode::UnalignedPointer)
            } else {
                Ok::<(), ResultCode>(())
            },
    {
        if self.data == 0 {
            Err(ResultCode::NullPointer)
        } else if self.data % align != 0 {
            Err(ResultCode::UnalignedPointer)
        } else {
            Ok(())
        }
    }
}

/// Relies on std::str::from_utf8: it returns `Ok` exactly on valid UTF-8
/// input, and the returned string slice is backed by exactly the input
/// bytes.
#[verifier::external_body]
fn utf8_to_str(bytes: &[u8]) -> (r: Option<&str>)
    ensures
        r matches Some(s) ==> s.spec_bytes() == bytes@,
        r is Some <==> valid_utf8(bytes@),
{
    std::str::from_utf8(bytes).ok()
}

/// Decodes the text of a caller-supplied view, as an owned string; bytes
/// that are not valid UTF-8 get the `InvalidString` code.
pub fn string_from_view(bytes: &[u8]) -> (r: Result<String, ResultCode>)
    ensures
        r matches Ok(s) ==> valid_utf8(bytes@) && s@ == decode_utf8(bytes@),
        r matches Err(c) ==> c == ResultCode::InvalidString && !valid_utf8(bytes@),
        r is Ok <==> valid_utf8(bytes@),
{
    match utf8_to_str(bytes) {
        Option::Some(s) => {
            proof {
                vstd::utf8::encode_utf8_valid_utf8(s@);
                vstd::utf8::encode_utf8_decode_utf8(s@);
            }
            Ok(s.to_owned())
        },
        Option::None => Err(ResultCode::InvalidString),
    }
}

} // verus!
