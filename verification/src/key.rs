//! Dot-delimited keys that address a place inside a stored value.

use crate::datastore::Error;
use crate::text::{spec_split, split_on_char};
use vstd::prelude::*;

verus! {

/// The character that separates the segments of a key.
pub const KEY_SEPARATOR: char = '.';

/// A validated, ordered, non-empty path of segments, parsed from a
/// delimiter-joined string. Segments are opaque and compared exactly.
#[derive(Debug)]
pub struct Key {
    name: String,
    segments: Vec<String>,
}

/// Every segment is non-empty.
pub open spec fn segments_valid(segments: Seq<Seq<char>>) -> bool {
    forall|i: int| 0 <= i < segments.len() ==> (#[trigger] segments[i]).len() > 0
}

impl View for Key {
    type V = Seq<Seq<char>>;

    closed spec fn view(&self) -> Seq<Seq<char>> {
        self.segments.deep_view()
    }
}

impl Key {
    /// The delimiter-joined form the key was parsed from.
    pub closed spec fn spec_name(&self) -> Seq<char> {
        self.name@
    }

    /// Well-formed: the segments are the fields of the name split on the
    /// separator, and none of them is empty.
    pub open spec fn wf(&self) -> bool {
        &&& self@ == spec_split(self.spec_name(), KEY_SEPARATOR)
        &&& segments_valid(self@)
        &&& self@.len() > 0
    }

    /// Parses a key from its delimiter-joined form. Construction fails
    /// exactly when some field of the split is empty; the empty string and
    /// names with leading, trailing or doubled separators are all rejected.
    pub fn new(name: &str) -> (r: Result<Key, Error>)
        ensures
            match r {
                Ok(k) => {
                    &&& segments_valid(spec_split(name@, KEY_SEPARATOR))
                    &&& k.wf()
                    &&& k.spec_name() == name@
                    &&& k@ == spec_split(name@, KEY_SEPARATOR)
                },
                Err(e) => {
                    &&& !segments_valid(spec_split(name@, KEY_SEPARATOR))
                    &&& e matches Error::InvalidKey { name: n } && n@ == name@
                },
            },
    {
        let segments = split_on_char(name, KEY_SEPARATOR);
        let mut i: usize = 0;
        while i < segments.len()
            invariant
                i <= segments@.len(),
                segments.deep_view() == spec_split(name@, KEY_SEPARATOR),
                forall|j: int| 0 <= j < i ==> (#[trigger] segments.deep_view()[j]).len() > 0,
            decreases segments@.len() - i,
        {
            if segments[i].as_str().is_empty() {
                proof {
                    assert(segments.deep_view()[i as int] == segments@[i as int]@);
                    assert(spec_split(name@, KEY_SEPARATOR)[i as int].len() == 0);
                    assert(!segments_valid(spec_split(name@, KEY_SEPARATOR)));
                }
                return Err(Error::InvalidKey { name: name.to_owned() });
            }
            i += 1;
        }
        Ok(Key { name: name.to_owned(), segments })
    }

    /// The segments, in order.
    pub fn segments(&self) -> (r: &Vec<String>)
        ensures
            r.deep_view() == self@,
    {
        &self.segments
    }

    /// The delimiter-joined form of the key.
    pub fn name(&self) -> (r: &String)
        ensures
            r@ == self.spec_name(),
    {
        &self.name
    }
}

} // verus!
