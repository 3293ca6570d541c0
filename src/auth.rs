//! User identifiers: non-negative 32-bit integers.
use std::num::TryFromIntError;
use vstd::prelude::*;
use vstd::std_specs::convert::{FromSpecImpl, TryFromSpecImpl};

verus! {

/// Relies on `rand::random`, which draws from the thread-local generator;
/// nothing is known of the value drawn.
#[verifier::external_body]
fn draw_i32() -> (r: i32) {
    ::rand::random::<i32>()
}

/// A user's identifier; never negative.
#[derive(Clone, Copy, Debug, PartialEq, Eq, Structural)]
pub struct UserID(i32);

impl UserID {
    /// The number behind the identifier.
    pub closed spec fn id(self) -> i32 {
        self.0
    }

    /// The identifier made from a drawn number: its absolute value, where
    /// `i32::MIN` gives `i32::MAX`.
    pub fn from_drawn(n: i32) -> (r: UserID)
        ensures
            r.id() == (if n == i32::MIN {
                i32::MAX as int
            } else if n < 0 {
                -n
            } else {
                n as int
            }),
    {
        if n == i32::MIN {
            UserID(i32::MAX)
        } else if n < 0 {
            UserID(-n)
        } else {
            UserID(n)
        }
    }

    /// A random identifier.
    pub fn rand() -> (r: UserID)
        ensures
            r.id() >= 0,
    {
        let n: i32 = draw_i32();
        UserID::from_drawn(n)
    }
}

impl From<UserID> for u32 {
    fn from(value: UserID) -> (r: u32) {
        value.0 as u32
    }
}

impl FromSpecImpl<UserID> for u32 {
    open spec fn obeys_from_spec() -> bool {
        true
    }

    open spec fn from_spec(v: UserID) -> u32 {
        v.id() as u32
    }
}

impl From<UserID> for i32 {
    fn from(value: UserID) -> (r: i32) {
        value.0
    }
}

impl FromSpecImpl<UserID> for i32 {
    open spec fn obeys_from_spec() -> bool {
        true
    }

    open spec fn from_spec(v: UserID) -> i32 {
        v.id()
    }
}

impl TryFrom<u32> for UserID {
    type Error = TryFromIntError;

    fn try_from(n: u32) -> (r: Result<UserID, TryFromIntError>)
        ensures
            r is Ok <==> n <= i32::MAX,
            r matches Ok(u) ==> u.id() == n,
    {
        match i32::try_from(n as u64) {
            Ok(v) => Ok(UserID(v)),
            Err(e) => Err(e),
        }
    }
}

impl TryFromSpecImpl<u32> for UserID {
    open spec fn obeys_try_from_spec() -> bool {
        false
    }

    open spec fn try_from_spec(n: u32) -> Result<UserID, TryFromIntError> {
        arbitrary()
    }
}

impl TryFrom<i32> for UserID {
    type Error = TryFromIntError;

    fn try_from(n: i32) -> (r: Result<UserID, TryFromIntError>)
        ensures
            r is Ok <==> n >= 0,
            r matches Ok(u) ==> u.id() == n,
    {
        match u32::try_from(n) {
            Ok(v) => Ok(UserID(v as i32)),
            Err(e) => Err(e),
        }
    }
}

impl TryFromSpecImpl<i32> for UserID {
    open spec fn obeys_try_from_spec() -> bool {
        false
    }

    open spec fn try_from_spec(n: i32) -> Result<UserID, TryFromIntError> {
        arbitrary()
    }
}

} // verus!
