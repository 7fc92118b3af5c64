//! Entries in tree objects.

use vstd::prelude::*;

use crate::bytes::{append, append_str, equal_str, lemma_lit_ascii, lit};
use crate::digest::{hex_encode, hex_string};
use crate::error::Error;
use crate::obj_read::{ObjReader, ObjView};
use crate::obj_type::ObjType;

verus! {

/// Possible modes (types) for tree entries.
#[derive(Clone, Copy, Debug, PartialEq, Eq, Structural)]
pub enum Mode {
    Dir,
    File,
    Exe,
    SymLink,
    SubMod,
}

/// What the filesystem says of a file.
#[derive(Clone, Copy, Debug, PartialEq, Eq, Structural)]
pub enum FileType {
    File,
    Dir,
    SymLink,
    Other,
}

/// The part of a file's metadata that decides its mode.
#[derive(Clone, Copy, Debug, PartialEq, Eq)]
pub struct Metadata {
    pub file_type: FileType,
    /// The permission bits.
    pub mode: u32,
}

impl Mode {
    /// The text of this mode in a tree object. Directories have no
    /// leading zero.
    pub open spec fn text(self) -> Seq<u8> {
        match self {
            Mode::Dir => lit("40000"),
            Mode::File => lit("100644"),
            Mode::Exe => lit("100755"),
            Mode::SymLink => lit("120000"),
            Mode::SubMod => lit("160000"),
        }
    }

    /// The mode that a text in a tree object stands for.
    pub open spec fn from_text(text: Seq<u8>) -> Option<Mode> {
        if text == lit("40000") {
            Some(Mode::Dir)
        } else if text == lit("100644") {
            Some(Mode::File)
        } else if text == lit("100755") {
            Some(Mode::Exe)
        } else if text == lit("120000") {
            Some(Mode::SymLink)
        } else if text == lit("160000") {
            Some(Mode::SubMod)
        } else {
            None
        }
    }

    /// The mode of a file with the given metadata, if it can have one.
    pub open spec fn of_metadata(meta: Metadata) -> Option<Mode> {
        match meta.file_type {
            FileType::File => if meta.mode & 0o111 != 0 {
                Some(Mode::Exe)
            } else {
                Some(Mode::File)
            },
            FileType::Dir => Some(Mode::Dir),
            FileType::SymLink => Some(Mode::SymLink),
            FileType::Other => None,
        }
    }

    /// The type of the object that an entry of this mode points at.
    pub open spec fn spec_obj_type(&self) -> ObjType {
        match *self {
            Mode::Dir => ObjType::Tree,
            Mode::File => ObjType::Blob,
            Mode::Exe => ObjType::Blob,
            Mode::SymLink => ObjType::Blob,
            Mode::SubMod => ObjType::Commit,
        }
    }

    /// Gets the mode from the byte strings used in tree objects.
    pub fn from_bytes(mode: &[u8]) -> (r: Result<Mode, Error>)
        ensures
            r == match Mode::from_text(mode@) {
                Some(m) => Ok::<Mode, Error>(m),
                None => Err(Error::Malformed),
            },
    {
        if equal_str(mode, "40000") {
            Ok(Mode::Dir)
        } else if equal_str(mode, "100644") {
            Ok(Mode::File)
        } else if equal_str(mode, "100755") {
            Ok(Mode::Exe)
        } else if equal_str(mode, "120000") {
            Ok(Mode::SymLink)
        } else if equal_str(mode, "160000") {
            Ok(Mode::SubMod)
        } else {
            Err(Error::Malformed)
        }
    }

    /// Determines the mode based on filesystem metadata.
    pub fn from_metadata(meta: &Metadata) -> (r: Result<Mode, Error>)
        ensures
            r == match Mode::of_metadata(*meta) {
                Some(m) => Ok::<Mode, Error>(m),
                None => Err(Error::UnsupportedFileType),
            },
    {
        match meta.file_type {
            FileType::File => {
                if meta.mode & 0o111 != 0 {
                    Ok(Mode::Exe)
                } else {
                    Ok(Mode::File)
                }
            },
            FileType::Dir => Ok(Mode::Dir),
            FileType::SymLink => Ok(Mode::SymLink),
            FileType::Other => Err(Error::UnsupportedFileType),
        }
    }

    /// Gives the string to be used in tree objects.
    pub fn to_str(&self) -> (r: &'static str)
        ensures
            lit(r) == self.text(),
    {
        match self {
            Mode::Dir => "40000",
            Mode::File => "100644",
            Mode::Exe => "100755",
            Mode::SymLink => "120000",
            Mode::SubMod => "160000",
        }
    }

    /// Gets the object type associated to this mode.
    #[verifier::when_used_as_spec(spec_obj_type)]
    pub fn obj_type(&self) -> (t: ObjType)
        ensures
            t == self.spec_obj_type(),
    {
        match self {
            Mode::Dir => ObjType::Tree,
            Mode::File => ObjType::Blob,
            Mode::Exe => ObjType::Blob,
            Mode::SymLink => ObjType::Blob,
            Mode::SubMod => ObjType::Commit,
        }
    }
}

/// The five mode texts, byte by byte.
pub proof fn lemma_mode_texts()
    ensures
        lit("40000") == seq![52u8, 48u8, 48u8, 48u8, 48u8],
        lit("100644") == seq![49u8, 48u8, 48u8, 54u8, 52u8, 52u8],
        lit("100755") == seq![49u8, 48u8, 48u8, 55u8, 53u8, 53u8],
        lit("120000") == seq![49u8, 50u8, 48u8, 48u8, 48u8, 48u8],
        lit("160000") == seq![49u8, 54u8, 48u8, 48u8, 48u8, 48u8],
{
    reveal_strlit("40000");
    reveal_strlit("100644");
    reveal_strlit("100755");
    reveal_strlit("120000");
    reveal_strlit("160000");
    lemma_lit_ascii("40000");
    lemma_lit_ascii("100644");
    lemma_lit_ascii("100755");
    lemma_lit_ascii("120000");
    lemma_lit_ascii("160000");
    assert(lit("40000") =~= seq![52u8, 48u8, 48u8, 48u8, 48u8]);
    assert(lit("100644") =~= seq![49u8, 48u8, 48u8, 54u8, 52u8, 52u8]);
    assert(lit("100755") =~= seq![49u8, 48u8, 48u8, 55u8, 53u8, 53u8]);
    assert(lit("120000") =~= seq![49u8, 50u8, 48u8, 48u8, 48u8, 48u8]);
    assert(lit("160000") =~= seq![49u8, 54u8, 48u8, 48u8, 48u8, 48u8]);
}

/// Each mode is read back from its own text.
pub proof fn lemma_mode_round_trip(mode: Mode)
    ensures
        Mode::from_text(mode.text()) == Some(mode),
{
    lemma_mode_texts();
    assert(lit("100644")[3] != lit("100755")[3]);
    assert(lit("100644")[1] != lit("120000")[1]);
    assert(lit("100644")[1] != lit("160000")[1]);
    assert(lit("100755")[1] != lit("120000")[1]);
    assert(lit("100755")[1] != lit("160000")[1]);
    assert(lit("120000")[1] != lit("160000")[1]);
}

/// An entry in a tree.
#[derive(Clone, Debug, PartialEq, Eq)]
pub struct Entry {
    pub mode: Mode,
    pub name: Vec<u8>,
    pub hash: [u8; 20],
}

/// The mathematical value of an entry.
pub struct EntryView {
    pub mode: Mode,
    pub name: Seq<u8>,
    pub hash: Seq<u8>,
}

impl View for Entry {
    type V = EntryView;

    open spec fn view(&self) -> EntryView {
        EntryView { mode: self.mode, name: self.name@, hash: self.hash@ }
    }
}

impl EntryView {
    /// The entry as it stands in a tree object: the mode's text, a space,
    /// the name, a NUL, and the 20 bytes of the digest.
    pub open spec fn wire(self) -> Seq<u8> {
        self.mode.text() + seq![32u8] + self.name + seq![0u8] + self.hash
    }

    /// The mode's text, filled with `0` on the left to six characters.
    pub open spec fn padded_mode(self) -> Seq<u8> {
        if self.mode == Mode::Dir {
            seq![48u8] + self.mode.text()
        } else {
            self.mode.text()
        }
    }

    /// The line that lists the entry: the padded mode, the type of the
    /// object, its name in hexadecimal, a tab, the entry's name, a newline.
    pub open spec fn line(self) -> Seq<u8> {
        self.padded_mode() + seq![32u8] + self.mode.spec_obj_type().label() + seq![32u8]
            + hex_encode(self.hash) + seq![9u8] + self.name + seq![10u8]
    }

    /// The line that lists only the name of the entry.
    pub open spec fn name_line(self) -> Seq<u8> {
        self.name + seq![10u8]
    }
}

/// Reading one entry from a tree object: the mode up to a space, the name
/// up to a NUL, 20 bytes of digest; then the mode must be a known one.
/// Returns the entry or the error, and the state that the reader is left in.
pub open spec fn parse_entry(v: ObjView) -> (Result<EntryView, Error>, ObjView) {
    match v.read_up_to(32) {
        Err(e) => (Err(e), v),
        Ok((text, v1)) => match v1.read_up_to(0) {
            Err(e) => (Err(e), v1),
            Ok((name, v2)) => match v2.read_exact(20) {
                Err(e) => (Err(e), v2),
                Ok((hash, v3)) => match Mode::from_text(text) {
                    None => (Err(Error::Malformed), v3),
                    Some(mode) => (Ok(EntryView { mode, name, hash }), v3),
                },
            },
        },
    }
}

impl Entry {
    /// Parses an entry from a tree object's content.
    pub fn parse(object: &mut ObjReader) -> (r: Result<Entry, Error>)
        ensures
            final(object)@ == parse_entry(old(object)@).1,
            match parse_entry(old(object)@).0 {
                Ok(e) => r matches Ok(x) && x@ == e,
                Err(e) => r matches Err(f) && f == e,
            },
    {
        let text = object.read_up_to(32u8)?;
        let name = object.read_up_to(0u8)?;
        let digest = object.read_exact(20)?;
        let mode = Mode::from_bytes(text.as_slice())?;
        let mut hash = [0u8; 20];
        let mut i: usize = 0;
        while i < 20
            invariant
                i <= 20,
                digest@.len() == 20,
                forall|j: int| 0 <= j < i ==> hash@[j] == digest@[j],
            decreases 20 - i,
        {
            hash[i] = digest[i];
            i = i + 1;
        }
        assert(hash@ =~= digest@);
        Ok(Entry { mode, name, hash })
    }

    /// Writes the entry as it will be in the tree object.
    pub fn push_to_vec(&self, out: &mut Vec<u8>)
        ensures
            final(out)@ == old(out)@ + self@.wire(),
    {
        append_str(out, self.mode.to_str());
        out.push(32u8);
        append(out, self.name.as_slice());
        out.push(0u8);
        append(out, self.hash.as_slice());
        assert(final(out)@ =~= old(out)@ + self@.wire());
    }

    /// Writes the name of the entry and a newline to `out`.
    pub fn print_name(&self, out: &mut Vec<u8>)
        ensures
            final(out)@ == old(out)@ + self@.name_line(),
    {
        append(out, self.name.as_slice());
        out.push(10u8);
        assert(final(out)@ =~= old(out)@ + self@.name_line());
    }

    /// Writes the entry to `out` in the format of a tree listing:
    /// `<mode> <object type> <hash>\t<name>\n`.
    pub fn print(&self, out: &mut Vec<u8>)
        ensures
            final(out)@ == old(out)@ + self@.line(),
    {
        match self.mode {
            Mode::Dir => {
                out.push(48u8);
            },
            _ => {},
        }
        append_str(out, self.mode.to_str());
        assert(out@ =~= old(out)@ + self@.padded_mode());
        out.push(32u8);
        append_str(out, self.mode.obj_type().to_str());
        out.push(32u8);
        let hash = hex_string(self.hash.as_slice());
        append(out, hash.as_str().as_bytes());
        out.push(9u8);
        append(out, self.name.as_slice());
        out.push(10u8);
        assert(final(out)@ =~= old(out)@ + self@.line());
    }
}

} // verus!
