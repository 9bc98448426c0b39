//! Record identifiers: opaque strings, either supplied by the caller
//! or derived from a record's serialized content by hashing.

use vstd::prelude::*;

use base64::Engine;
use sha2::Digest;
use vstd::string::StringSliceAdditionalSpecFns;

verus! {

/// The SHA-256 digest of a byte sequence: 32 bytes, a function of the
/// input alone.
pub uninterp spec fn sha256_of(bytes: Seq<u8>) -> Seq<u8>;

/// The standard-alphabet, padded base64 rendering of a byte sequence:
/// a function of the input alone.
pub uninterp spec fn base64_of(bytes: Seq<u8>) -> Seq<char>;

/// Relies on `sha2::Sha256` (through `Digest::digest`): returns the
/// 32-byte SHA-256 digest of the input, a function of the input bytes
/// alone.
#[verifier::external_body]
fn sha256(bytes: &[u8]) -> (r: Vec<u8>)
    ensures
        r@ == sha256_of(bytes@),
        r@.len() == 32,
{
    sha2::Sha256::digest(bytes).to_vec()
}

/// A symbol the padded standard base64 alphabet can produce: the
/// sixty-four alphabet characters, or the padding sign.
pub open spec fn base64_char(c: char) -> bool {
    ||| 'A' as u32 <= c as u32 <= 'Z' as u32
    ||| 'a' as u32 <= c as u32 <= 'z' as u32
    ||| '0' as u32 <= c as u32 <= '9' as u32
    ||| c == '+'
    ||| c == '/'
    ||| c == '='
}

/// Relies on `base64::engine::general_purpose::STANDARD`:
/// `Engine::encode` renders the input in the standard base64 alphabet
/// with padding, a function of the input bytes alone; every output
/// character is an alphabet symbol or the padding sign, and the
/// padded output is four characters per three input bytes, rounded
/// up. The length bound on the input keeps the output size
/// computation, which the engine expects to fit in `usize`, far from
/// overflow.
#[verifier::external_body]
fn base64_encode(bytes: &[u8]) -> (r: String)
    requires
        bytes@.len() <= 0x1000_0000,
    ensures
        r@ == base64_of(bytes@),
        r@.len() == 4 * ((bytes@.len() + 2) / 3),
        forall|i: int| 0 <= i < r@.len() ==> base64_char(#[trigger] r@[i]),
{
    base64::engine::general_purpose::STANDARD.encode(bytes)
}

/// An identifier: an opaque string naming at most one record within a
/// collection's key space.
#[derive(Debug, Clone, Eq, Hash)]
pub struct ID(String);

impl View for ID {
    type V = Seq<char>;

    closed spec fn view(&self) -> Seq<char> {
        self.0@
    }
}

impl DeepView for ID {
    type V = Seq<char>;

    open spec fn deep_view(&self) -> Seq<char> {
        self.view()
    }
}

impl PartialEq for ID {
    fn eq(&self, o: &ID) -> (r: bool) {
        self.0 == o.0
    }
}

impl vstd::std_specs::cmp::PartialEqSpecImpl for ID {
    open spec fn obeys_eq_spec() -> bool {
        true
    }

    open spec fn eq_spec(&self, o: &ID) -> bool {
        self@ == o@
    }
}

impl ID {
    /// Derives the identifier of a serialized record: the base64
    /// rendering of the SHA-256 digest of its UTF-8 bytes. Equal
    /// inputs always derive equal identifiers; every derived
    /// identifier is forty-four base64 characters.
    pub fn gen(v: &str) -> (r: ID)
        ensures
            r@ == base64_of(sha256_of(v.spec_bytes())),
            r@.len() == 44,
            forall|i: int| 0 <= i < r@.len() ==> base64_char(#[trigger] r@[i]),
    {
        let digest = sha256(v.as_bytes());
        let text = base64_encode(digest.as_slice());
        ID(text)
    }

    /// The identifier's characters.
    pub fn as_str(&self) -> (r: &str)
        ensures
            r@ == self@,
    {
        self.0.as_str()
    }

    /// Adopts a caller-supplied string as an identifier, unchanged.
    pub fn from_string(s: String) -> (r: ID)
        ensures
            r@ == s@,
    {
        ID(s)
    }

    /// Gives the identifier up as a plain string, unchanged.
    pub fn into_string(self) -> (r: String)
        ensures
            r@ == self@,
    {
        self.0
    }

    /// Builds an identifier holding the same characters.
    pub fn duplicate(&self) -> (r: ID)
        ensures
            r == *self,
    {
        ID(self.0.clone())
    }
}

impl From<String> for ID {
    fn from(value: String) -> (r: ID) {
        ID(value)
    }
}

impl vstd::std_specs::convert::FromSpecImpl<String> for ID {
    open spec fn obeys_from_spec() -> bool {
        true
    }

    closed spec fn from_spec(value: String) -> ID {
        ID(value)
    }
}

impl From<ID> for String {
    fn from(value: ID) -> (r: String) {
        value.0
    }
}

impl vstd::std_specs::convert::FromSpecImpl<ID> for String {
    open spec fn obeys_from_spec() -> bool {
        true
    }

    closed spec fn from_spec(value: ID) -> String {
        value.0
    }
}

/// Deriving an identifier is deterministic: equal serialized content
/// names the same identifier, so identical records collide to one key.
pub proof fn lemma_gen_deterministic(a: Seq<char>, b: Seq<char>)
    requires
        a == b,
    ensures
        base64_of(sha256_of(vstd::utf8::encode_utf8(a))) == base64_of(
            sha256_of(vstd::utf8::encode_utf8(b)),
        ),
{
}

} // verus!
