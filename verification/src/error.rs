//! Errors of the detection ingestion API and their gRPC status mapping.
use vstd::prelude::*;
use vstd::string::StringExecFns;

verus! {

/// Errors returned by the detection ingestion API.
#[derive(Debug)]
pub enum ApiError {
    /// Camera id not found in the registry.
    UnknownCamera(u32),
    /// Malformed detection event data.
    InvalidData(String),
    /// Bridge channel is at capacity; backpressure applied.
    ChannelFull,
    /// Simulation side has disconnected from the bridge channel.
    ChannelClosed,
}

/// The gRPC status codes that API errors map to.
#[derive(Debug, Clone, Copy, PartialEq, Eq, Structural)]
pub enum StatusCode {
    /// The requested entity was not found.
    NotFound,
    /// The client sent an invalid argument.
    InvalidArgument,
    /// The service is currently unavailable.
    Unavailable,
}

/// The decimal digit character for `d` (below 10).
pub open spec fn digit_char(d: int) -> char {
    if d == 0 {
        '0'
    } else if d == 1 {
        '1'
    } else if d == 2 {
        '2'
    } else if d == 3 {
        '3'
    } else if d == 4 {
        '4'
    } else if d == 5 {
        '5'
    } else if d == 6 {
        '6'
    } else if d == 7 {
        '7'
    } else if d == 8 {
        '8'
    } else {
        '9'
    }
}

/// The decimal representation of `n`, without leading zeros.
pub open spec fn decimal(n: nat) -> Seq<char>
    decreases n,
{
    if n < 10 {
        seq![digit_char(n as int)]
    } else {
        decimal(n / 10).push(digit_char((n % 10) as int))
    }
}

/// The message of an error as its `Display` shows it.
pub open spec fn display_message(e: ApiError) -> Seq<char> {
    match e {
        ApiError::UnknownCamera(id) => "unknown camera: "@ + decimal(id as nat),
        ApiError::InvalidData(msg) => "invalid data: "@ + msg@,
        ApiError::ChannelFull => "channel full: detection pipeline is overloaded"@,
        ApiError::ChannelClosed => "channel closed: simulation disconnected"@,
    }
}

/// The gRPC status code an error maps to.
pub open spec fn spec_status_code(e: ApiError) -> StatusCode {
    match e {
        ApiError::UnknownCamera(_) => StatusCode::NotFound,
        ApiError::InvalidData(_) => StatusCode::InvalidArgument,
        ApiError::ChannelFull => StatusCode::Unavailable,
        ApiError::ChannelClosed => StatusCode::Unavailable,
    }
}

/// The gRPC status message an error maps to.
pub open spec fn spec_status_message(e: ApiError) -> Seq<char> {
    match e {
        ApiError::UnknownCamera(id) => "unknown camera: "@ + decimal(id as nat),
        ApiError::InvalidData(msg) => msg@,
        ApiError::ChannelFull => "detection pipeline is overloaded"@,
        ApiError::ChannelClosed => "simulation disconnected"@,
    }
}

/// The digit string for `d` (below 10).
fn digit_str(d: u32) -> (r: &'static str)
    requires
        d < 10,
    ensures
        r@ == seq![digit_char(d as int)],
{
    proof {
        reveal_strlit("0");
        reveal_strlit("1");
        reveal_strlit("2");
        reveal_strlit("3");
        reveal_strlit("4");
        reveal_strlit("5");
        reveal_strlit("6");
        reveal_strlit("7");
        reveal_strlit("8");
        reveal_strlit("9");
    }
    if d == 0 {
        "0"
    } else if d == 1 {
        "1"
    } else if d == 2 {
        "2"
    } else if d == 3 {
        "3"
    } else if d == 4 {
        "4"
    } else if d == 5 {
        "5"
    } else if d == 6 {
        "6"
    } else if d == 7 {
        "7"
    } else if d == 8 {
        "8"
    } else {
        "9"
    }
}

/// Append the decimal representation of `n` to `s`.
fn push_decimal(s: &mut String, n: u32)
    ensures
        final(s)@ == old(s)@ + decimal(n as nat),
    decreases n,
{
    if n < 10 {
        s.append(digit_str(n));
    } else {
        push_decimal(s, n / 10);
        s.append(digit_str(n % 10));
        proof {
            assert(old(s)@ + decimal(n as nat) =~= old(s)@ + decimal((n / 10) as nat) + seq![digit_char((n % 10) as int)]);
        }
    }
}

impl ApiError {
    /// The error's message, as its `Display` shows it.
    pub fn display_message(&self) -> (r: String)
        ensures
            r@ == display_message(*self),
    {
        match self {
            ApiError::UnknownCamera(id) => {
                let mut s = String::from_str("unknown camera: ");
                push_decimal(&mut s, *id);
                s
            },
            ApiError::InvalidData(msg) => {
                let mut s = String::from_str("invalid data: ");
                s.append(msg.as_str());
                s
            },
            ApiError::ChannelFull => String::from_str("channel full: detection pipeline is overloaded"),
            ApiError::ChannelClosed => String::from_str("channel closed: simulation disconnected"),
        }
    }

    /// The gRPC status code the error maps to: an unknown camera is not
    /// found, invalid data is an invalid argument, and a full or closed
    /// channel makes the service unavailable.
    pub fn status_code(&self) -> (r: StatusCode)
        ensures
            r == spec_status_code(*self),
    {
        match self {
            ApiError::UnknownCamera(_) => StatusCode::NotFound,
            ApiError::InvalidData(_) => StatusCode::InvalidArgument,
            ApiError::ChannelFull => StatusCode::Unavailable,
            ApiError::ChannelClosed => StatusCode::Unavailable,
        }
    }

    /// The gRPC status message the error maps to.
    pub fn status_message(&self) -> (r: String)
        ensures
            r@ == spec_status_message(*self),
    {
        match self {
            ApiError::UnknownCamera(id) => {
                let mut s = String::from_str("unknown camera: ");
                push_decimal(&mut s, *id);
                s
            },
            ApiError::InvalidData(msg) => msg.clone(),
            ApiError::ChannelFull => String::from_str("detection pipeline is overloaded"),
            ApiError::ChannelClosed => String::from_str("simulation disconnected"),
        }
    }

    /// The gRPC status the error maps to.
    pub fn into_status(self) -> (r: tonic::Status)
        ensures
            r == grpc_status_of(spec_status_code(self), spec_status_message(self)),
    {
        let code = self.status_code();
        let message = self.status_message();
        grpc_status(code, message)
    }
}

/// `tonic::Status`, a gRPC status: a code, a message and metadata.
#[verifier::external_type_specification]
#[verifier::external_body]
pub struct ExStatus(tonic::Status);

/// The status that `tonic::Status::new` makes from a code and a message.
pub uninterp spec fn grpc_status_of(code: StatusCode, message: Seq<char>) -> tonic::Status;

/// Makes a gRPC status with `tonic::Status::new`: the given code and
/// message, no details and no metadata. The result is a function of the
/// code and the message alone.
#[verifier::external_body]
fn grpc_status(code: StatusCode, message: String) -> (r: tonic::Status)
    ensures
        r == grpc_status_of(code, message@),
{
    let code = match code {
        StatusCode::NotFound => tonic::Code::NotFound,
        StatusCode::InvalidArgument => tonic::Code::InvalidArgument,
        StatusCode::Unavailable => tonic::Code::Unavailable,
    };
    tonic::Status::new(code, message)
}

} // verus!
