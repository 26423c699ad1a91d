//! A string that happens to be a credential.
//!
//! It has no `Debug` and no `Display` of its own text, so it cannot be printed
//! by accident, and it clears itself when dropped. Reading the value is spelled
//! [`Secret::expose`] on purpose.
use vstd::prelude::*;
use vstd::string::*;

verus! {

/// `zeroize::Zeroize::zeroize` on a `String` overwrites its bytes with zeros
/// and leaves it empty.
#[verifier::external_body]
fn wipe(text: &mut String)
    ensures
        final(text)@ == Seq::<char>::empty(),
    opens_invariants none
    no_unwind
{
    zeroize::Zeroize::zeroize(text);
}

#[derive(PartialEq, Eq)]
pub struct Secret(String);

impl View for Secret {
    type V = Seq<char>;

    closed spec fn view(&self) -> Seq<char> {
        self.0@
    }
}

impl Drop for Secret {
    fn drop(&mut self)
        opens_invariants none
        no_unwind
    {
        wipe(&mut self.0);
    }
}

impl Secret {
    pub fn new(value: String) -> (r: Secret)
        ensures
            r@ == value@,
    {
        Secret(value)
    }

    /// Hands over the plaintext.
    pub fn expose(&self) -> (r: &str)
        ensures
            r@ == self@,
    {
        self.0.as_str()
    }

    pub fn is_empty(&self) -> (r: bool)
        ensures
            r == (self@.len() == 0),
    {
        self.0.as_str().is_empty()
    }

    /// What is printed in place of the value.
    pub fn debug_text(&self) -> (r: String)
        ensures
            r@ == "<hidden>"@,
    {
        "<hidden>".to_owned()
    }
}

impl Clone for Secret {
    fn clone(&self) -> (r: Secret)
        ensures
            r == *self,
    {
        Secret(self.0.clone())
    }
}

impl Default for Secret {
    fn default() -> (r: Secret)
        ensures
            r@ == Seq::<char>::empty(),
    {
        Secret(String::new())
    }
}

impl From<String> for Secret {
    fn from(value: String) -> (r: Secret)
        ensures
            r@ == value@,
    {
        Secret(value)
    }
}

impl From<&str> for Secret {
    fn from(value: &str) -> (r: Secret)
        ensures
            r@ == value@,
    {
        Secret(value.to_owned())
    }
}

impl vstd::std_specs::convert::FromSpecImpl<&str> for Secret {
    open spec fn obeys_from_spec() -> bool {
        false
    }

    open spec fn from_spec(value: &str) -> Secret {
        arbitrary()
    }
}

impl vstd::std_specs::convert::FromSpecImpl<String> for Secret {
    open spec fn obeys_from_spec() -> bool {
        true
    }

    closed spec fn from_spec(value: String) -> Secret {
        Secret(value)
    }
}

} // verus!
