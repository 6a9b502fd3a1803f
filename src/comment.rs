//! A comment of a configuration file, and its bytes as a `BString`.

use bstr::{BString, ByteVec};
use vstd::prelude::*;

verus! {

#[verifier::external_type_specification]
#[verifier::external_body]
pub struct ExBString(BString);

/// The bytes that a `BString` holds.
pub uninterp spec fn bstring_bytes(b: BString) -> Seq<u8>;

/// Relies on `BString::from(Vec<u8>)`, which keeps the vector as the string's bytes.
#[verifier::external_body]
fn bstring_from_vec(v: Vec<u8>) -> (r: BString)
    ensures
        bstring_bytes(r) == v@,
{
    BString::from(v)
}

/// Relies on `ByteVec::push_str`, which appends the given bytes at the end.
#[verifier::external_body]
fn bstring_push_str(b: &mut BString, s: &[u8])
    ensures
        bstring_bytes(*final(b)) == bstring_bytes(*old(b)) + s@,
{
    b.push_str(s)
}

/// A comment of a configuration file: the character that opened it (`#` or
/// `;`) and the text after it.
#[derive(Debug, PartialEq, Eq)]
pub struct Comment {
    pub comment_tag: u8,
    pub comment: Vec<u8>,
}

impl Comment {
    /// A copy of this comment that owns all of its bytes.
    pub fn to_owned(&self) -> (r: Comment)
        ensures
            r.comment_tag == self.comment_tag,
            r.comment@ == self.comment@,
    {
        let mut text: Vec<u8> = Vec::new();
        let mut i: usize = 0;
        while i < self.comment.len()
            invariant
                0 <= i <= self.comment@.len(),
                text@ == self.comment@.subrange(0, i as int),
            decreases self.comment@.len() - i,
        {
            text.push(self.comment[i]);
            i = i + 1;
        }
        assert(text@ =~= self.comment@);
        Comment { comment_tag: self.comment_tag, comment: text }
    }

    /// The comment as it stands in the file: the tag byte, then the text.
    pub fn to_bstring(&self) -> (r: BString)
        ensures
            bstring_bytes(r) == seq![self.comment_tag] + self.comment@,
    {
        let mut values = bstring_from_vec(vec![self.comment_tag]);
        bstring_push_str(&mut values, self.comment.as_slice());
        values
    }

    /// The comment as it stands in the file, consuming it.
    pub fn into_bstring(self) -> (r: BString)
        ensures
            bstring_bytes(r) == seq![self.comment_tag] + self.comment@,
    {
        self.to_bstring()
    }
}

} // verus!
