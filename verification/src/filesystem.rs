//! The filesystem-backed data store.
//!
//! A persistent implementation of the
//! [`DataStore`](crate::datastore::DataStore) capability is required for
//! production use; its operations are future work and are not provided
//! here. What is fixed here is the on-disk path layout those operations
//! share: live data under one directory, each pending transaction under
//! a directory of its own, with transaction names percent-encoded so that
//! any name is safe as a single path component.

use crate::datastore::{Committed, Error};
use crate::text::push_char;
use vstd::prelude::*;
use vstd::string::StringExecFns;
use vstd::utf8::{encode_utf8, valid_utf8};

verus! {

/// A byte kept as itself in an encoded path component: the ASCII
/// alphanumerics, `_` and `-`. Every other byte is percent-escaped.
pub open spec fn keep_byte(b: u8) -> bool {
    ||| (48 <= b && b <= 57)
    ||| (65 <= b && b <= 90)
    ||| (97 <= b && b <= 122)
    ||| b == 95
    ||| b == 45
}

/// The uppercase hexadecimal digit of a value below sixteen.
pub open spec fn hex_digit(n: u8) -> char
    recommends
        n < 16,
{
    seq!['0', '1', '2', '3', '4', '5', '6', '7', '8', '9', 'A', 'B', 'C', 'D', 'E', 'F'][n as int]
}

/// The percent-escape of one byte: `%` and two uppercase hex digits.
pub open spec fn byte_escape(b: u8) -> Seq<char> {
    seq!['%', hex_digit(b / 16), hex_digit(b % 16)]
}

/// The encoding of one byte: kept bytes stand for themselves, all others
/// are percent-escaped.
pub open spec fn encode_byte(b: u8) -> Seq<char> {
    if keep_byte(b) {
        seq![b as char]
    } else {
        byte_escape(b)
    }
}

/// The percent-encoding of a byte string, byte by byte.
pub open spec fn percent_encoded(bs: Seq<u8>) -> Seq<char>
    decreases bs.len(),
{
    if bs.len() == 0 {
        Seq::empty()
    } else {
        encode_byte(bs[0]) + percent_encoded(bs.drop_first())
    }
}

/// Encoding one more byte extends the encoding.
proof fn lemma_percent_encoded_push(bs: Seq<u8>, b: u8)
    ensures
        percent_encoded(bs.push(b)) == percent_encoded(bs) + encode_byte(b),
    decreases bs.len(),
{
    if bs.len() == 0 {
        assert(bs.push(b)[0] == b);
        assert(bs.push(b).drop_first() =~= Seq::<u8>::empty());
        assert(percent_encoded(Seq::<u8>::empty()) == Seq::<char>::empty());
        assert(percent_encoded(bs.push(b)) == encode_byte(b) + Seq::<char>::empty());
        assert(encode_byte(b) + Seq::<char>::empty() =~= encode_byte(b));
        assert(percent_encoded(bs) + encode_byte(b) =~= encode_byte(b));
    } else {
        assert(bs.push(b).drop_first() =~= bs.drop_first().push(b));
        lemma_percent_encoded_push(bs.drop_first(), b);
        assert(encode_byte(bs[0]) + (percent_encoded(bs.drop_first()) + encode_byte(b))
            =~= (encode_byte(bs[0]) + percent_encoded(bs.drop_first())) + encode_byte(b));
    }
}

/// Relies on percent_encoding::percent_encode_byte: the percent-escape
/// of one byte, a `%` followed by the byte's two uppercase hexadecimal
/// digits.
#[verifier::external_body]
fn escape_byte(b: u8) -> (r: &'static str)
    ensures
        r@ == byte_escape(b),
{
    percent_encoding::percent_encode_byte(b)
}

/// Whether the byte stands for itself in an encoded path component.
fn is_keep_byte(b: u8) -> (r: bool)
    ensures
        r == keep_byte(b),
{
    (48 <= b && b <= 57) || (65 <= b && b <= 90) || (97 <= b && b <= 122) || b == 95
        || b == 45
}

/// Encodes a string so that it is safe to use as a filesystem path
/// component: each byte of its UTF-8 form stands for itself if it is an
/// ASCII alphanumeric, `_` or `-`, and is percent-escaped otherwise.
#[verifier::loop_isolation(false)]
pub fn encode_path_component(segment: &str) -> (r: String)
    ensures
        r@ == percent_encoded(encode_utf8(segment@)),
{
    let bytes = segment.as_bytes();
    let mut r = String::new();
    let mut i: usize = 0;
    proof {
        assert(bytes@.take(0) =~= Seq::<u8>::empty());
        assert(percent_encoded(bytes@.take(0)) =~= Seq::<char>::empty());
    }
    while i < bytes.len()
        invariant
            i <= bytes@.len(),
            bytes@ == encode_utf8(segment@),
            r@ == percent_encoded(bytes@.take(i as int)),
        decreases bytes@.len() - i,
    {
        let b = bytes[i];
        proof {
            assert(bytes@.take(i as int + 1) =~= bytes@.take(i as int).push(b));
            lemma_percent_encoded_push(bytes@.take(i as int), b);
        }
        if is_keep_byte(b) {
            push_char(&mut r, b as char);
            proof {
                assert(r@ =~= percent_encoded(bytes@.take(i as int)) + encode_byte(b));
            }
        } else {
            let esc = escape_byte(b);
            r.append(esc);
        }
        i += 1;
    }
    proof {
        assert(bytes@.take(i as int) =~= bytes@);
    }
    r
}

/// An ASCII hexadecimal digit, either case.
pub open spec fn is_hex_byte(b: u8) -> bool {
    ||| (48 <= b && b <= 57)
    ||| (97 <= b && b <= 102)
    ||| (65 <= b && b <= 70)
}

/// The value of an ASCII hexadecimal digit.
pub open spec fn hex_value(b: u8) -> u8
    recommends
        is_hex_byte(b),
{
    if 48 <= b && b <= 57 {
        (b - 48) as u8
    } else if 97 <= b && b <= 102 {
        (b - 97 + 10) as u8
    } else {
        (b - 65 + 10) as u8
    }
}

/// The percent-unescaping of a byte string: each `%` followed by two
/// hexadecimal digits becomes the byte they denote; every other byte,
/// a `%` without two hex digits included, is kept as it stands.
pub open spec fn percent_unescaped(bs: Seq<u8>) -> Seq<u8>
    decreases bs.len(),
{
    if bs.len() == 0 {
        Seq::empty()
    } else if bs[0] == 37 && bs.len() >= 3 && is_hex_byte(bs[1]) && is_hex_byte(bs[2]) {
        seq![(hex_value(bs[1]) * 16 + hex_value(bs[2])) as u8] + percent_unescaped(bs.skip(3))
    } else {
        seq![bs[0]] + percent_unescaped(bs.drop_first())
    }
}

/// Relies on percent_encoding::percent_decode_str together with its
/// decode_utf8: percent-unescapes the string's UTF-8 bytes and decodes
/// the result as UTF-8, failing exactly when the unescaped bytes are not
/// well-formed UTF-8.
#[verifier::external_body]
fn percent_decode(segment: &str) -> (r: Option<String>)
    ensures
        match r {
            Some(t) => encode_utf8(t@) == percent_unescaped(encode_utf8(segment@)),
            None => !valid_utf8(percent_unescaped(encode_utf8(segment@))),
        },
{
    match percent_encoding::percent_decode_str(segment).decode_utf8() {
        Ok(decoded) => Some(decoded.into_owned()),
        Err(_) => None,
    }
}

/// Decodes a path component, removing the encoding that makes it
/// filesystem-safe. Fails with the distinct corruption error exactly
/// when the unescaped bytes are not valid UTF-8, which can only happen
/// if the stored name was written by something else.
pub fn decode_path_component(segment: &str, path: &str) -> (r: Result<String, Error>)
    ensures
        match r {
            Ok(t) => encode_utf8(t@) == percent_unescaped(encode_utf8(segment@)),
            Err(e) => {
                &&& !valid_utf8(percent_unescaped(encode_utf8(segment@)))
                &&& e matches Error::Corruption { path: p, msg: _ } && p@ == path@
            },
        },
{
    match percent_decode(segment) {
        Some(t) => Ok(t),
        None => {
            let msg = String::from_str("invalid UTF-8 in encoded segment '").concat(
                segment,
            ).concat("'");
            Err(Error::Corruption { path: path.to_owned(), msg })
        },
    }
}

/// A base directory joined with one child component.
pub open spec fn joined(base: Seq<char>, child: Seq<char>) -> Seq<char> {
    base + seq!['/'] + child
}

/// The path layout of a store on disk: live data under one directory,
/// each pending transaction under a directory of its own.
#[derive(Debug)]
pub struct FilesystemDataStore {
    live_path: String,
    pending_base_path: String,
}

impl FilesystemDataStore {
    /// The directory the live view's data lives under.
    pub closed spec fn spec_live_path(&self) -> Seq<char> {
        self.live_path@
    }

    /// The directory the pending transactions live under.
    pub closed spec fn spec_pending_base_path(&self) -> Seq<char> {
        self.pending_base_path@
    }

    /// A store rooted at `base_path`: live data under its `live` child,
    /// pending transactions under its `pending` child.
    pub fn new(base_path: &str) -> (r: FilesystemDataStore)
        ensures
            r.spec_live_path() == joined(base_path@, "live"@),
            r.spec_pending_base_path() == joined(base_path@, "pending"@),
    {
        let mut live_path = base_path.to_owned();
        push_char(&mut live_path, '/');
        live_path.append("live");
        let mut pending_base_path = base_path.to_owned();
        push_char(&mut pending_base_path, '/');
        pending_base_path.append("pending");
        proof {
            assert(live_path@ =~= joined(base_path@, "live"@));
            assert(pending_base_path@ =~= joined(base_path@, "pending"@));
        }
        FilesystemDataStore { live_path, pending_base_path }
    }

    /// The directory a view's data lives under: the live directory for
    /// the live view; for a pending view, a directory named by the
    /// percent-encoded transaction name under the pending base.
    pub fn base_path(&self, committed: &Committed) -> (r: String)
        ensures
            match committed {
                Committed::Live => r@ == self.spec_live_path(),
                Committed::Pending { tx } => r@ == joined(
                    self.spec_pending_base_path(),
                    percent_encoded(encode_utf8(tx@)),
                ),
            },
    {
        match committed {
            Committed::Pending { tx } => {
                let encoded = encode_path_component(tx.as_str());
                let mut r = self.pending_base_path.clone();
                push_char(&mut r, '/');
                r.append(encoded.as_str());
                proof {
                    assert(r@ =~= joined(
                        self.spec_pending_base_path(),
                        percent_encoded(encode_utf8(tx@)),
                    ));
                }
                r
            },
            Committed::Live => self.live_path.clone(),
        }
    }
}

} // verus!
