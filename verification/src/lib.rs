//! What the monitor keeps, compares and schedules.
//!
//! Every function here works on plain values and says in its contract what it
//! returns. Reading a file, a keyring, a database or a clock on the wall is
//! left to the program around this crate.
use vstd::prelude::*;

pub mod budget;
pub mod clock;
pub mod duration;
pub mod filters;
pub mod model;
pub mod number;
pub mod paths;
pub mod secret;
pub mod secrets;
pub mod session;
pub mod sets;
pub mod store;
pub mod text;
pub mod watch;

pub use clock::{Epoch, EpochMs};

use crate::number::{decimal, number, read_u64, write_u64};
use crate::text::chars_of;

verus! {

/// An account's id.
///
/// A type of its own rather than a bare number: an id, a count and a moment are
/// all sixty-four bits wide, and only one of them names an account.
#[derive(Clone, Copy, Debug, PartialEq, Eq, PartialOrd, Ord, Hash, Structural)]
pub struct Pk(pub u64);

impl Pk {
    /// The id this number names.
    pub fn new(value: u64) -> (pk: Pk)
        ensures
            pk == Pk(value),
    {
        Pk(value)
    }

    /// The number back out.
    pub fn get(self) -> (value: u64)
        ensures
            value == self.0,
    {
        self.0
    }

    /// The bare digits, which is what a URL, a label and a JSON value all want.
    pub fn to_string(&self) -> (text: String)
        ensures
            text@ == decimal(self.0 as nat),
    {
        write_u64(self.0)
    }

    /// The id a text spells, when it spells one that fits.
    pub fn parse(text: &str) -> (r: Option<Pk>)
        ensures
            match r {
                Some(pk) => number(text@) == Some(pk.0 as int),
                None => number(text@) is None || number(text@)->0 > u64::MAX,
            },
    {
        let chars = chars_of(text);
        match read_u64(chars.as_slice()) {
            Some(value) => Some(Pk(value)),
            None => None,
        }
    }
}

impl From<u64> for Pk {
    fn from(value: u64) -> (pk: Pk) {
        Pk(value)
    }
}

impl vstd::std_specs::convert::FromSpecImpl<u64> for Pk {
    open spec fn obeys_from_spec() -> bool {
        true
    }

    open spec fn from_spec(value: u64) -> Pk {
        Pk(value)
    }
}

/// What a text that is not an id is refused with.
#[derive(Clone, Copy, Debug, PartialEq, Eq, Structural)]
pub struct NotAnId;

impl std::str::FromStr for Pk {
    type Err = NotAnId;

    fn from_str(text: &str) -> (r: Result<Pk, NotAnId>)
        ensures
            match r {
                Ok(pk) => number(text@) == Some(pk.0 as int),
                Err(_) => number(text@) is None || number(text@)->0 > u64::MAX,
            },
    {
        match Pk::parse(text) {
            Some(pk) => Ok(pk),
            None => Err(NotAnId),
        }
    }
}

/// An id reads back from the text it is written as.
pub proof fn an_id_reads_back_from_its_text(pk: Pk)
    ensures
        number(decimal(pk.0 as nat)) == Some(pk.0 as int),
{
    crate::number::lemma_decimal(pk.0 as nat);
}

} // verus!
