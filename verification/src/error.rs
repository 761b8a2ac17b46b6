//! Errors of the pool and their messages.

use vstd::prelude::*;
use vstd::string::StringExecFns;

verus! {

/// What can go wrong while a buffer is acquired.
#[derive(Debug)]
pub enum MahoutError {
    /// The device did not supply the memory; the message says how much was asked for and why
    /// it was refused.
    MemoryAllocation(String),
}

/// The result of an operation that can fail with a `MahoutError`.
pub type Result<T> = std::result::Result<T, MahoutError>;

/// The decimal digit `d`.
pub open spec fn digit(d: nat) -> char
    recommends
        d < 10,
{
    seq!['0', '1', '2', '3', '4', '5', '6', '7', '8', '9'][d as int]
}

/// `n` in decimal notation, without leading zeros.
pub open spec fn decimal(n: nat) -> Seq<char>
    decreases n,
{
    if n < 10 {
        seq![digit(n)]
    } else {
        decimal(n / 10).push(digit(n % 10))
    }
}

/// The message of a failed allocation of `size` bytes.
pub open spec fn allocation_failure(size: nat, reason: Seq<char>) -> Seq<char> {
    "Failed to allocate "@ + decimal(size) + " bytes: "@ + reason
}

/// The decimal digit `d` as a string.
fn digit_str(d: usize) -> (s: &'static str)
    requires
        d < 10,
    ensures
        s@ == seq![digit(d as nat)],
{
    proof {
        reveal_strlit("0");
        reveal_strlit("1");
        reveal_strlit("2");
        reveal_strlit("3");
        reveal_strlit("4");
        reveal_strlit("5");
        reveal_strlit("6");
        reveal_strlit("7");
        reveal_strlit("8");
        reveal_strlit("9");
    }
    match d {
        0 => "0",
        1 => "1",
        2 => "2",
        3 => "3",
        4 => "4",
        5 => "5",
        6 => "6",
        7 => "7",
        8 => "8",
        _ => "9",
    }
}

/// Appends `n` in decimal notation.
fn append_decimal(text: &mut String, n: usize)
    ensures
        final(text)@ == old(text)@ + decimal(n as nat),
    decreases n,
{
    if n >= 10 {
        append_decimal(text, n / 10);
    }
    text.append(digit_str(n % 10));
}

/// The error for an allocation of `size` bytes that the device refused for `reason`.
pub fn allocation_error(size: usize, reason: &str) -> (error: MahoutError)
    ensures
        error matches MahoutError::MemoryAllocation(message) && message@ == allocation_failure(
            size as nat,
            reason@,
        ) && message@ == "Failed to allocate "@ + decimal(size as nat) + " bytes: "@ + reason@,
{
    let mut message = String::new();
    message.append("Failed to allocate ");
    append_decimal(&mut message, size);
    message.append(" bytes: ");
    message.append(reason);
    MahoutError::MemoryAllocation(message)
}

} // verus!
