//! Protocol-wide limits and small shared validity rules.
use vstd::prelude::*;

verus! {

/// Largest encoded frame on a stream transport, newline included.
pub const MAX_WIRE: usize = 1048576;
/// Largest encoded message in one datagram.
pub const MAX_DATAGRAM: usize = 61440;
/// Largest record payload accepted anywhere.
pub const MAX_PAYLOAD: usize = 65536;
/// Default depth of per-connection event queues.
pub const EVENT_QUEUE: usize = 64;

/// A named numeric setting outside its accepted range.
#[derive(Debug, Clone, PartialEq, Eq)]
pub struct RangeError {
    pub name: String,
    pub min: usize,
    pub max: usize,
}

impl RangeError {
    /// Human readable form, `"{name} must be {min}..={max}"`.
    pub fn message(&self) -> (m: String)
        ensures
            m@ == self.name@ + " must be "@ + crate::text::decimal(self.min as nat) + "..="@
                + crate::text::decimal(self.max as nat),
    {
        let mut m = self.name.clone();
        crate::text::append_str(&mut m, " must be ");
        crate::text::append_decimal(&mut m, self.min as u64);
        crate::text::append_str(&mut m, "..=");
        crate::text::append_decimal(&mut m, self.max as u64);
        m
    }
}

/// The setting `name` must lie in `min..=max`.
pub fn bounded(name: &str, value: usize, min: usize, max: usize) -> (r: Result<(), RangeError>)
    ensures
        r is Ok <==> min <= value <= max,
        r matches Err(e) ==> e.name@ == name@ && e.min == min && e.max == max,
{
    if min <= value && value <= max {
        Ok(())
    } else {
        Err(RangeError { name: name.to_owned(), min, max })
    }
}

} // verus!
