//! The errors that registration and demand report, and their messages.

use std::any::TypeId;
use vstd::prelude::*;

verus! {

/// Errors that can occur when interacting with a pull graph.
#[derive(Debug)]
pub enum PullGraphError {
    /// A provider is already registered for the given type.
    AlreadyRegistered(TypeId),
    /// No provider has been registered for the requested type.
    NoProvider(TypeId),
    /// Registering the provider would create a dependency cycle.
    DependencyCycle(Vec<TypeId>),
}

/// The text that `TypeId`'s `Debug` formatting gives for `id`.
pub uninterp spec fn type_id_text(id: TypeId) -> Seq<char>;

/// Formats `id` with `{:?}`. Claimed: the text is a function of the key alone
/// (it is named, not described: std leaves its form open).
#[verifier::external_body]
fn type_id_debug(id: &TypeId) -> (r: String)
    ensures
        r@ == type_id_text(*id),
{
    format!("{:?}", id)
}

/// The decimal digit for `d`.
pub open spec fn digit_char(d: nat) -> char {
    if d == 0 {
        '0'
    } else if d == 1 {
        '1'
    } else if d == 2 {
        '2'
    } else if d == 3 {
        '3'
    } else if d == 4 {
        '4'
    } else if d == 5 {
        '5'
    } else if d == 6 {
        '6'
    } else if d == 7 {
        '7'
    } else if d == 8 {
        '8'
    } else {
        '9'
    }
}

/// The decimal notation of `n`, without leading zeros.
pub open spec fn decimal(n: nat) -> Seq<char>
    decreases n,
{
    if n < 10 {
        seq![digit_char(n)]
    } else {
        decimal(n / 10) + seq![digit_char(n % 10)]
    }
}

fn digit_str(d: usize) -> (r: &'static str)
    requires
        d < 10,
    ensures
        r@ == seq![digit_char(d as nat)],
{
    proof {
        reveal_strlit("0");
        reveal_strlit("1");
        reveal_strlit("2");
        reveal_strlit("3");
        reveal_strlit("4");
        reveal_strlit("5");
        reveal_strlit("6");
        reveal_strlit("7");
        reveal_strlit("8");
        reveal_strlit("9");
    }
    if d == 0 {
        "0"
    } else if d == 1 {
        "1"
    } else if d == 2 {
        "2"
    } else if d == 3 {
        "3"
    } else if d == 4 {
        "4"
    } else if d == 5 {
        "5"
    } else if d == 6 {
        "6"
    } else if d == 7 {
        "7"
    } else if d == 8 {
        "8"
    } else {
        "9"
    }
}

/// The decimal notation of `n`.
pub fn decimal_string(n: usize) -> (r: String)
    ensures
        r@ == decimal(n as nat),
    decreases n,
{
    if n < 10 {
        String::from_str(digit_str(n))
    } else {
        let mut s = decimal_string(n / 10);
        s.append(digit_str(n % 10));
        s
    }
}

/// The message a `PullGraphError` displays.
pub open spec fn error_message(e: PullGraphError) -> Seq<char> {
    match e {
        PullGraphError::AlreadyRegistered(id) => "provider already registered for type "@
            + type_id_text(id),
        PullGraphError::NoProvider(id) => "no provider registered for type "@ + type_id_text(id),
        PullGraphError::DependencyCycle(ids) => "dependency cycle detected involving "@ + decimal(
            ids@.len(),
        ) + " types"@,
    }
}

impl PullGraphError {
    /// The message describing the error.
    pub fn message(&self) -> (r: String)
        ensures
            r@ == error_message(*self),
    {
        match self {
            PullGraphError::AlreadyRegistered(id) => {
                let mut s = String::from_str("provider already registered for type ");
                let t = type_id_debug(id);
                s.append(t.as_str());
                s
            },
            PullGraphError::NoProvider(id) => {
                let mut s = String::from_str("no provider registered for type ");
                let t = type_id_debug(id);
                s.append(t.as_str());
                s
            },
            PullGraphError::DependencyCycle(ids) => {
                let mut s = String::from_str("dependency cycle detected involving ");
                let n = decimal_string(ids.len());
                s.append(n.as_str());
                s.append(" types");
                s
            },
        }
    }
}

} // verus!
