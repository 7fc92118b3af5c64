//! Writing loose objects, and computing their names.

use vstd::prelude::*;
use vstd::utf8::encode_utf8;

use crate::bytes::{append, append_decimal, append_str, decimal, slice_to_vec};
use crate::digest::{hex_encode, hex_string, sha1, sha1_digest};
use crate::error::Error;
use crate::obj_type::ObjType;
use crate::store::{extends, tmp_name_of, Log, ObjectStore, Slot};
use crate::zlib::deflate;

verus! {

/// The header of a loose object: the type's word, a space, the size of the
/// payload in decimal, and a NUL.
pub open spec fn header(obj_type: ObjType, size: nat) -> Seq<u8> {
    obj_type.label() + seq![32u8] + decimal(size) + seq![0u8]
}

/// A loose object before compression: its header, then its payload.
pub open spec fn loose_object(obj_type: ObjType, payload: Seq<u8>) -> Seq<u8> {
    header(obj_type, payload.len()) + payload
}

/// The name of an object: the SHA-1 digest of the uncompressed object,
/// header included, as 40 lowercase hexadecimal digits.
pub open spec fn object_name(obj_type: ObjType, payload: Seq<u8>) -> Seq<u8> {
    hex_encode(sha1(loose_object(obj_type, payload))@)
}

/// The journal after an object has been installed under its own name.
pub open spec fn installed(log: Log, obj_type: ObjType, payload: Seq<u8>) -> Log {
    log.push((object_name(obj_type, payload), Some(loose_object(obj_type, payload))))
}

/// Draws 20 random bytes from `rand::rng()` with `Rng::fill`. Nothing is
/// claimed of them.
#[verifier::external_body]
fn random_nonce() -> (r: [u8; 20]) {
    let mut nonce = [0u8; 20];
    rand::Rng::fill(&mut rand::rng(), &mut nonce);
    nonce
}

/// What an object writer has been told and given so far.
pub struct WriterView {
    /// The type of the object.
    pub obj_type: ObjType,
    /// The size that the payload was announced with.
    pub size: nat,
    /// The payload written so far.
    pub payload: Seq<u8>,
    /// Whether a write went over the announced size.
    pub exceeded: bool,
    /// Whether the object is to be installed in the store.
    pub persist: bool,
}

impl WriterView {
    /// A writer that has been given nothing yet.
    pub open spec fn start(obj_type: ObjType, size: nat, persist: bool) -> WriterView {
        WriterView { obj_type, size, payload: Seq::empty(), exceeded: false, persist }
    }

    /// Whether `buf` can still be written: no write has failed, and the
    /// announced size is not exceeded.
    pub open spec fn accepts(self, buf: Seq<u8>) -> bool {
        !self.exceeded && self.payload.len() + buf.len() <= self.size
    }

    /// The writer after `buf` has been handed to it.
    pub open spec fn write(self, buf: Seq<u8>) -> WriterView {
        if self.accepts(buf) {
            WriterView { payload: self.payload + buf, ..self }
        } else {
            WriterView { exceeded: true, ..self }
        }
    }

    /// The error that finishing meets, if any.
    pub open spec fn finish_error(self) -> Option<Error> {
        if self.exceeded {
            Some(Error::SizeExceeded)
        } else if self.payload.len() != self.size {
            Some(Error::SizeShort)
        } else {
            None
        }
    }
}

/// Generic object writer: data can be provided piece by piece, but the
/// total size needs to be known upfront.
///
/// Can either just compute the object's name, or also install it.
pub struct ObjWriter {
    obj_type: ObjType,
    size: usize,
    payload: Vec<u8>,
    exceeded: bool,
    persist: bool,
    tmp_rand: [u8; 20],
}

impl View for ObjWriter {
    type V = WriterView;

    closed spec fn view(&self) -> WriterView {
        WriterView {
            obj_type: self.obj_type,
            size: self.size as nat,
            payload: self.payload@,
            exceeded: self.exceeded,
            persist: self.persist,
        }
    }
}

impl ObjWriter {
    /// The nonce that names the temporary file: 20 bytes.
    pub closed spec fn nonce(self) -> Seq<u8> {
        self.tmp_rand@
    }

    /// Picks a name for the temporary file.
    ///
    /// The object cannot be written to its final place directly, as that
    /// is determined by the digest of header and content, which is not
    /// known until the end.
    pub fn tmp_path(tmp_rand: &[u8]) -> (r: Vec<u8>)
        ensures
            r@ == tmp_name_of(tmp_rand@),
    {
        let mut name: Vec<u8> = Vec::new();
        append_str(&mut name, "tmpobj");
        let digits = hex_string(tmp_rand);
        append(&mut name, digits.as_str().as_bytes());
        name
    }

    /// Creates an object writer for a payload of `size` bytes. With
    /// `write` the finished object is installed in the store, under a
    /// temporary name drawn at random first.
    pub fn new(obj_type: ObjType, size: usize, write: bool) -> (w: ObjWriter)
        ensures
            w@ == WriterView::start(obj_type, size as nat, write),
    {
        let tmp_rand: [u8; 20] = if write {
            random_nonce()
        } else {
            [0u8; 20]
        };
        ObjWriter { obj_type, size, payload: Vec::new(), exceeded: false, persist: write, tmp_rand }
    }

    /// Writes a buffer into this object, returning how many bytes were
    /// written: all of them, unless the announced size would be exceeded.
    /// After a write that failed every write fails.
    pub fn write(&mut self, buf: &[u8]) -> (r: Result<usize, Error>)
        ensures
            final(self)@ == old(self)@.write(buf@),
            final(self).nonce() == old(self).nonce(),
            old(self)@.accepts(buf@) ==> r == Ok::<usize, Error>(buf.len()),
            !old(self)@.accepts(buf@) ==> r == Err::<usize, Error>(Error::SizeExceeded),
    {
        if self.exceeded || buf.len() > self.size || self.payload.len() > self.size - buf.len() {
            self.exceeded = true;
            return Err(Error::SizeExceeded);
        }
        let mut payload: Vec<u8> = Vec::new();
        std::mem::swap(&mut payload, &mut self.payload);
        append(&mut payload, buf);
        self.payload = payload;
        Ok(buf.len())
    }

    /// Checks that the size of the data written matches the announced
    /// size.
    pub fn check(&self) -> (r: Result<(), Error>)
        ensures
            match self@.finish_error() {
                Some(e) => r == Err::<(), Error>(e),
                None => r is Ok,
            },
    {
        if self.exceeded {
            Err(Error::SizeExceeded)
        } else if self.payload.len() != self.size {
            Err(Error::SizeShort)
        } else {
            Ok(())
        }
    }

    /// Finalizes object creation. Call this when all data has been
    /// written, to get the object's name; the object is installed in
    /// `store` if the writer was created for that.
    ///
    /// Checks that the size of the data written matches the announced size.
    pub fn finish(self, store: &mut ObjectStore) -> (r: Result<String, Error>)
        ensures
            match self@.finish_error() {
                Some(e) => r matches Err(f) && f == e,
                None => r matches Ok(name) && encode_utf8(name@) == object_name(
                    self@.obj_type,
                    self@.payload,
                ),
            },
            r is Err || !self@.persist ==> final(store).slots() == old(store).slots(),
            r is Ok && self@.persist ==> final(store).log() == installed(
                old(store).log(),
                self@.obj_type,
                self@.payload,
            ),
            r is Ok && self@.persist ==> final(store).slots().len() == old(store).slots().len() + 1
                && final(store).slots().last().tmp_name == Some(tmp_name_of(self.nonce())),
            extends(final(store).slots(), old(store).slots()),
    {
        assert(store.slots().take(store.slots().len() as int) =~= store.slots());
        if self.exceeded {
            return Err(Error::SizeExceeded);
        }
        if self.payload.len() != self.size {
            return Err(Error::SizeShort);
        }
        let mut object: Vec<u8> = Vec::new();
        append_str(&mut object, self.obj_type.to_str());
        object.push(32u8);
        append_decimal(&mut object, self.size as u64);
        object.push(0u8);
        append(&mut object, self.payload.as_slice());
        assert(object@ =~= loose_object(self.obj_type, self@.payload));
        let digest = sha1_digest(object.as_slice());
        let name = hex_string(digest.as_slice());
        if self.persist {
            let data = deflate(object.as_slice());
            let key = slice_to_vec(name.as_str().as_bytes(), 0, name.as_str().as_bytes().len());
            let tmp = ObjWriter::tmp_path(self.tmp_rand.as_slice());
            store.install(key, data, tmp);
            assert(key@ == object_name(self@.obj_type, self@.payload));
            let ghost before = old(store).slots();
            assert(final(store).slots().take(before.len() as int) =~= before);
            assert(self.nonce().len() == 20);
        } else {
            assert(store.slots().take(store.slots().len() as int) =~= store.slots());
        }
        Ok(name)
    }
}

/// Writes an object with the given content, and returns its name. With
/// `write` the object is installed in `store`; without, the store is left
/// as it is.
pub fn write_object(obj_type: ObjType, source: &[u8], write: bool, store: &mut ObjectStore) -> (r:
    String)
    ensures
        encode_utf8(r@) == object_name(obj_type, source@),
        !write ==> final(store).slots() == old(store).slots(),
        write ==> final(store).log() == installed(old(store).log(), obj_type, source@),
        extends(final(store).slots(), old(store).slots()),
{
    let mut object = ObjWriter::new(obj_type, source.len(), write);
    let written: Result<usize, Error> = object.write(source);
    assert(object@.payload =~= source@);
    match object.finish(store) {
        Ok(name) => name,
        Err(_) => vstd::pervasive::unreached(),
    }
}

} // verus!
