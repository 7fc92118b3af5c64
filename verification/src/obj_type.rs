//! Object types.

use vstd::prelude::*;

use crate::bytes::{equal_str, first_index, lemma_first_index_is, lemma_lit_ascii, lit};
use crate::error::Error;

verus! {

/// Possible types for an object.
#[derive(Clone, Copy, Debug, PartialEq, Eq, Structural)]
pub enum ObjType {
    Commit,
    Tree,
    Blob,
    Tag,
}

impl ObjType {
    /// The word that stands for this type in the header of a loose object.
    pub open spec fn label(self) -> Seq<u8> {
        match self {
            ObjType::Commit => lit("commit"),
            ObjType::Tree => lit("tree"),
            ObjType::Blob => lit("blob"),
            ObjType::Tag => lit("tag"),
        }
    }

    /// The type that a header word stands for.
    pub open spec fn from_label(label: Seq<u8>) -> Option<ObjType> {
        if label == lit("commit") {
            Some(ObjType::Commit)
        } else if label == lit("tree") {
            Some(ObjType::Tree)
        } else if label == lit("blob") {
            Some(ObjType::Blob)
        } else if label == lit("tag") {
            Some(ObjType::Tag)
        } else {
            None
        }
    }

    /// From the byte strings used in the header of loose objects.
    pub fn from_bytes(label: &[u8]) -> (r: Result<ObjType, Error>)
        ensures
            r == match ObjType::from_label(label@) {
                Some(t) => Ok::<ObjType, Error>(t),
                None => Err(Error::Malformed),
            },
    {
        if equal_str(label, "commit") {
            Ok(ObjType::Commit)
        } else if equal_str(label, "tree") {
            Ok(ObjType::Tree)
        } else if equal_str(label, "blob") {
            Ok(ObjType::Blob)
        } else if equal_str(label, "tag") {
            Ok(ObjType::Tag)
        } else {
            Err(Error::Malformed)
        }
    }

    /// To the strings used in the header of loose objects.
    pub fn to_str(&self) -> (r: &'static str)
        ensures
            lit(r) == self.label(),
    {
        match self {
            ObjType::Commit => "commit",
            ObjType::Tree => "tree",
            ObjType::Blob => "blob",
            ObjType::Tag => "tag",
        }
    }
}

/// The four header words, byte by byte.
pub proof fn lemma_labels()
    ensures
        lit("commit") == seq![99u8, 111u8, 109u8, 109u8, 105u8, 116u8],
        lit("tree") == seq![116u8, 114u8, 101u8, 101u8],
        lit("blob") == seq![98u8, 108u8, 111u8, 98u8],
        lit("tag") == seq![116u8, 97u8, 103u8],
{
    reveal_strlit("commit");
    reveal_strlit("tree");
    reveal_strlit("blob");
    reveal_strlit("tag");
    lemma_lit_ascii("commit");
    lemma_lit_ascii("tree");
    lemma_lit_ascii("blob");
    lemma_lit_ascii("tag");
    assert(lit("commit") =~= seq![99u8, 111u8, 109u8, 109u8, 105u8, 116u8]);
    assert(lit("tree") =~= seq![116u8, 114u8, 101u8, 101u8]);
    assert(lit("blob") =~= seq![98u8, 108u8, 111u8, 98u8]);
    assert(lit("tag") =~= seq![116u8, 97u8, 103u8]);
}

/// Each type is read back from its own header word, and no header word
/// holds a space.
pub proof fn lemma_label_round_trip(t: ObjType)
    ensures
        ObjType::from_label(t.label()) == Some(t),
        first_index(t.label(), 32) == t.label().len(),
{
    lemma_labels();
    let l = t.label();
    assert(lit("tree")[0] != lit("blob")[0]);
    assert forall|i: int| 0 <= i < l.len() implies l[i] != 32 by {}
    lemma_first_index_is(l, 32, l.len() as int);
}

} // verus!
