//! Reading from objects in loose storage.

use vstd::prelude::*;

use crate::bytes::{
    decimal, first_index, lemma_decimal, lemma_decimal_no_delim, lemma_first_index,
    lemma_first_index_is, lit, parse_decimal, read_decimal, slice_to_vec,
};
use crate::digest::sha1;
use crate::obj_write::{loose_object, object_name};
use crate::cursor::{read_up_to, Cursor};
use crate::digest::all_lower_hex;
use crate::error::Error;
use crate::obj_type::ObjType;
use crate::store::{Files, ObjectStore};
use crate::zlib::{inflate, inflated};

verus! {

/// An object that is being read: its type, the size that its header
/// declares, the number of payload bytes delivered so far, and every byte
/// that the stream holds after the header.
pub struct ObjView {
    pub obj_type: ObjType,
    pub size: nat,
    pub used: nat,
    pub body: Seq<u8>,
}

impl ObjView {
    /// No more has been delivered than the header declares or the stream
    /// holds.
    pub open spec fn wf(self) -> bool {
        self.used <= self.size && self.used <= self.body.len()
    }

    /// The bytes of the stream that have not been delivered.
    pub open spec fn rest(self) -> Seq<u8> {
        self.body.skip(self.used as int)
    }

    /// The number of bytes that may still be delivered.
    pub open spec fn owed(self) -> int {
        self.size - self.used
    }

    /// The state after `n` more bytes have been delivered.
    pub open spec fn advance(self, n: int) -> ObjView {
        ObjView { used: (self.used + n) as nat, ..self }
    }

    /// Reading at most `n` bytes: as many as the stream still holds, which
    /// is an error if that goes beyond the declared size; nothing at the
    /// end of the stream, which is an error before the declared size.
    pub open spec fn read(self, n: int) -> Result<(Seq<u8>, ObjView), Error> {
        let rest = self.rest();
        if n <= 0 {
            Ok((Seq::empty(), self))
        } else if rest.len() == 0 {
            if self.used == self.size {
                Ok((Seq::empty(), self))
            } else {
                Err(Error::UnexpectedEof)
            }
        } else {
            let k = if n <= rest.len() {
                n
            } else {
                rest.len() as int
            };
            if k <= self.owed() {
                Ok((rest.take(k), self.advance(k)))
            } else {
                Err(Error::SizeMismatch)
            }
        }
    }

    /// Reading exactly `n` bytes.
    pub open spec fn read_exact(self, n: int) -> Result<(Seq<u8>, ObjView), Error> {
        let rest = self.rest();
        if n <= 0 {
            Ok((Seq::empty(), self))
        } else if rest.len() <= self.owed() && rest.len() < n {
            Err(Error::UnexpectedEof)
        } else if n <= self.owed() {
            Ok((rest.take(n), self.advance(n)))
        } else {
            Err(Error::SizeMismatch)
        }
    }

    /// Reading everything that is left.
    pub open spec fn read_to_end(self) -> Result<(Seq<u8>, ObjView), Error> {
        let rest = self.rest();
        if rest.len() < self.owed() {
            Err(Error::UnexpectedEof)
        } else if rest.len() > self.owed() {
            Err(Error::SizeMismatch)
        } else {
            Ok((rest, self.advance(rest.len() as int)))
        }
    }

    /// Reading up to the first `delim` and past it.
    pub open spec fn read_up_to(self, delim: u8) -> Result<(Seq<u8>, ObjView), Error> {
        let rest = self.rest();
        let k = first_index(rest, delim);
        if k < rest.len() && k < self.owed() {
            Ok((rest.take(k), self.advance(k + 1)))
        } else if rest.len() <= self.owed() {
            Err(Error::UnexpectedEof)
        } else {
            Err(Error::SizeMismatch)
        }
    }

    /// Whether the declared size has been delivered; it is an error if the
    /// stream then holds more.
    pub open spec fn eof(self) -> Result<bool, Error> {
        if self.used < self.size {
            Ok(false)
        } else if self.rest().len() == 0 {
            Ok(true)
        } else {
            Err(Error::TrailingBytes)
        }
    }
}

/// What the header at the start of an expanded object says: the type up to
/// the first space, the size in decimal up to the first NUL after it, and
/// the rest as the body.
pub open spec fn parse_header(stream: Seq<u8>) -> Option<ObjView> {
    let k = first_index(stream, 32);
    let rest = stream.skip(k + 1);
    let j = first_index(rest, 0);
    if k >= stream.len() || j >= rest.len() {
        None
    } else {
        match (ObjType::from_label(stream.take(k)), parse_decimal(rest.take(j))) {
            (Some(obj_type), Some(size)) => if size <= usize::MAX {
                Some(ObjView { obj_type, size, used: 0, body: rest.skip(j + 1) })
            } else {
                None
            },
            _ => None,
        }
    }
}

/// Opening what a stored file expands to: the file must be a zlib stream,
/// and the stream must start with an object header.
pub open spec fn open_content(content: Option<Seq<u8>>) -> Result<ObjView, Error> {
    match content {
        None => Err(Error::CorruptStream),
        Some(stream) => match parse_header(stream) {
            None => Err(Error::Malformed),
            Some(v) => Ok(v),
        },
    }
}

/// Opening a stored file.
pub open spec fn open_file(file: Seq<u8>) -> Result<ObjView, Error> {
    open_content(inflated(file))
}

/// Whether `name` can name an object: at least four characters, all of
/// them lowercase hexadecimal digits.
pub open spec fn valid_name(name: Seq<u8>) -> bool {
    name.len() >= 4 && all_lower_hex(name)
}

/// Opening the object that `name` names in a store.
pub open spec fn open_object(store: Files, name: Seq<u8>) -> Result<ObjView, Error> {
    if !valid_name(name) {
        Err(Error::BadName)
    } else if !store.contains_key(name) {
        Err(Error::NotFound)
    } else {
        open_content(store[name])
    }
}

/// The header of an object is read back as it was written: the type, the
/// size, and the payload as the body.
pub proof fn lemma_parse_header(obj_type: ObjType, payload: Seq<u8>)
    requires
        payload.len() <= usize::MAX,
    ensures
        parse_header(loose_object(obj_type, payload)) == Some(
            ObjView { obj_type, size: payload.len(), used: 0, body: payload },
        ),
{
    let label = obj_type.label();
    let digits = decimal(payload.len());
    let stream = loose_object(obj_type, payload);
    crate::obj_type::lemma_label_round_trip(obj_type);
    lemma_decimal(payload.len());
    lemma_decimal_no_delim(payload.len());
    lemma_first_index(label, 32);
    assert(stream =~= label + (seq![32u8] + digits + seq![0u8] + payload));
    assert forall|i: int| 0 <= i < label.len() implies stream[i] != 32 by {
        assert(stream[i] == label[i]);
    }
    assert(stream[label.len() as int] == 32);
    lemma_first_index_is(stream, 32, label.len() as int);
    assert(stream.take(label.len() as int) =~= label);
    let rest = stream.skip(label.len() as int + 1);
    assert(rest =~= digits + (seq![0u8] + payload));
    lemma_first_index(digits, 0);
    assert forall|i: int| 0 <= i < digits.len() implies rest[i] != 0 by {
        assert(rest[i] == digits[i]);
    }
    assert(rest[digits.len() as int] == 0);
    lemma_first_index_is(rest, 0, digits.len() as int);
    assert(rest.take(digits.len() as int) =~= digits);
    assert(rest.skip(digits.len() as int + 1) =~= payload);
}

/// An object opens as a reader of its payload.
pub proof fn lemma_open_content(obj_type: ObjType, payload: Seq<u8>)
    requires
        payload.len() <= usize::MAX,
    ensures
        open_content(Some(loose_object(obj_type, payload))) == Ok::<ObjView, Error>(
            ObjView { obj_type, size: payload.len(), used: 0, body: payload },
        ),
{
    lemma_parse_header(obj_type, payload);
}

/// The name of an object is a valid name.
pub proof fn lemma_object_name_valid(obj_type: ObjType, payload: Seq<u8>)
    ensures
        valid_name(object_name(obj_type, payload)),
        object_name(obj_type, payload).len() == 40,
{
    crate::digest::lemma_hex_encode_lower(sha1(loose_object(obj_type, payload))@);
}

/// Whether `name` is at least four lowercase hexadecimal digits.
pub fn is_valid_name(name: &[u8]) -> (r: bool)
    ensures
        r == valid_name(name@),
{
    if name.len() < 4 {
        return false;
    }
    let mut i: usize = 0;
    while i < name.len()
        invariant
            i <= name.len(),
            forall|j: int| 0 <= j < i ==> crate::digest::is_lower_hex(#[trigger] name@[j]),
        decreases name.len() - i,
    {
        let b: u8 = name[i];
        if !((48 <= b && b <= 57) || (97 <= b && b <= 102)) {
            return false;
        }
        i = i + 1;
    }
    true
}

/// Reads the size field of a loose object: decimal digits terminated by NUL.
pub fn read_obj_size(s: &mut Cursor) -> (r: Result<usize, Error>)
    ensures
        ({
            let rest = old(s).remaining();
            let j = first_index(rest, 0);
            match parse_decimal(rest.take(j)) {
                Some(size) if j < rest.len() && size <= usize::MAX => {
                    &&& r == Ok::<usize, Error>(size as usize)
                    &&& final(s).remaining() == rest.skip(j + 1)
                },
                _ => r == Err::<usize, Error>(Error::Malformed),
            }
        }),
{
    let digits = match read_up_to(s, 0u8) {
        Ok(d) => d,
        Err(_) => {
            return Err(Error::Malformed);
        },
    };
    match read_decimal(digits.as_slice()) {
        Some(size) => Ok(size),
        None => Err(Error::Malformed),
    }
}

/// Reads the type of a loose object: a word terminated by a space.
pub fn read_obj_type(s: &mut Cursor) -> (r: Result<ObjType, Error>)
    ensures
        ({
            let rest = old(s).remaining();
            let k = first_index(rest, 32);
            match ObjType::from_label(rest.take(k)) {
                Some(t) if k < rest.len() => {
                    &&& r == Ok::<ObjType, Error>(t)
                    &&& final(s).remaining() == rest.skip(k + 1)
                },
                _ => r == Err::<ObjType, Error>(Error::Malformed),
            }
        }),
{
    let label = match read_up_to(s, 32u8) {
        Ok(l) => l,
        Err(_) => {
            return Err(Error::Malformed);
        },
    };
    ObjType::from_bytes(label.as_slice())
}

/// Access to object data: type and size from the header, content by
/// reading.
pub struct ObjReader {
    obj_type: ObjType,
    size: usize,
    used: usize,
    body: Vec<u8>,
}

impl View for ObjReader {
    type V = ObjView;

    closed spec fn view(&self) -> ObjView {
        ObjView {
            obj_type: self.obj_type,
            size: self.size as nat,
            used: self.used as nat,
            body: self.body@,
        }
    }
}

impl ObjReader {
    /// What holds of every reader: no more has been delivered than the
    /// header declares or the stream holds.
    #[verifier::type_invariant]
    pub open spec fn inv(self) -> bool {
        self@.wf()
    }

    /// Creates an object reader from the content of a stored file.
    pub fn from_file(file: &[u8]) -> (r: Result<ObjReader, Error>)
        ensures
            match open_file(file@) {
                Ok(v) => r matches Ok(o) && o@ == v,
                Err(e) => r matches Err(f) && f == e,
            },
    {
        let stream = match inflate(file) {
            Some((stream, _)) => stream,
            None => {
                return Err(Error::CorruptStream);
            },
        };
        let mut cursor = Cursor::new(stream);
        let obj_type = read_obj_type(&mut cursor)?;
        let size: usize = read_obj_size(&mut cursor)?;
        let body = cursor.remaining_bytes();
        Ok(ObjReader { obj_type, size, used: 0, body })
    }

    /// Creates an object reader from the name of an object in `store`.
    pub fn from_hash(store: &ObjectStore, hash: &str) -> (r: Result<ObjReader, Error>)
        ensures
            match open_object(store@, lit(hash)) {
                Ok(v) => r matches Ok(o) && o@ == v,
                Err(e) => r matches Err(f) && f == e,
            },
    {
        let name = hash.as_bytes();
        if !is_valid_name(name) {
            return Err(Error::BadName);
        }
        match store.get(name) {
            Some(file) => ObjReader::from_file(file.as_slice()),
            None => Err(Error::NotFound),
        }
    }

    /// The type of the object.
    pub fn obj_type(&self) -> (t: ObjType)
        ensures
            t == self@.obj_type,
    {
        self.obj_type
    }

    /// The size of the payload, as the header declares it.
    pub fn size(&self) -> (n: usize)
        ensures
            n == self@.size,
            self@.wf(),
    {
        proof {
            use_type_invariant(self);
        }
        self.size
    }

    /// Reads at most `n` bytes of the payload.
    pub fn read(&mut self, n: usize) -> (r: Result<Vec<u8>, Error>)
        ensures
            match old(self)@.read(n as int) {
                Ok((bytes, next)) => r matches Ok(v) && v@ == bytes && final(self)@ == next,
                Err(e) => r matches Err(f) && f == e && final(self)@ == old(self)@,
            },
            final(self)@.wf(),
    {
        proof {
            use_type_invariant(&*self);
        }
        let left: usize = self.body.len() - self.used;
        if n == 0 {
            return Ok(Vec::new());
        }
        if left == 0 {
            if self.used == self.size {
                return Ok(Vec::new());
            } else {
                return Err(Error::UnexpectedEof);
            }
        }
        let k: usize = if n <= left {
            n
        } else {
            left
        };
        if k > self.size - self.used {
            return Err(Error::SizeMismatch);
        }
        let v = slice_to_vec(self.body.as_slice(), self.used, self.used + k);
        self.used = self.used + k;
        assert(v@ =~= old(self)@.rest().take(k as int));
        Ok(v)
    }

    /// Reads exactly `n` bytes of the payload.
    pub fn read_exact(&mut self, n: usize) -> (r: Result<Vec<u8>, Error>)
        ensures
            match old(self)@.read_exact(n as int) {
                Ok((bytes, next)) => r matches Ok(v) && v@ == bytes && final(self)@ == next,
                Err(e) => r matches Err(f) && f == e && final(self)@ == old(self)@,
            },
            final(self)@.wf(),
    {
        proof {
            use_type_invariant(&*self);
        }
        let left: usize = self.body.len() - self.used;
        let owed: usize = self.size - self.used;
        if n == 0 {
            return Ok(Vec::new());
        }
        if left <= owed && left < n {
            return Err(Error::UnexpectedEof);
        }
        if n > owed {
            return Err(Error::SizeMismatch);
        }
        let v = slice_to_vec(self.body.as_slice(), self.used, self.used + n);
        self.used = self.used + n;
        assert(v@ =~= old(self)@.rest().take(n as int));
        Ok(v)
    }

    /// Reads what is left of the payload.
    pub fn read_to_end(&mut self) -> (r: Result<Vec<u8>, Error>)
        ensures
            match old(self)@.read_to_end() {
                Ok((bytes, next)) => r matches Ok(v) && v@ == bytes && final(self)@ == next,
                Err(e) => r matches Err(f) && f == e && final(self)@ == old(self)@,
            },
            final(self)@.wf(),
    {
        proof {
            use_type_invariant(&*self);
        }
        let left: usize = self.body.len() - self.used;
        let owed: usize = self.size - self.used;
        if left < owed {
            return Err(Error::UnexpectedEof);
        }
        if left > owed {
            return Err(Error::SizeMismatch);
        }
        let v = slice_to_vec(self.body.as_slice(), self.used, self.body.len());
        self.used = self.used + left;
        assert(v@ =~= old(self)@.rest());
        Ok(v)
    }

    /// Reads data from the object up to the given delimiter (excluded).
    /// The delimiter is consumed, but not returned as part of the output.
    pub fn read_up_to(&mut self, delim: u8) -> (r: Result<Vec<u8>, Error>)
        ensures
            match old(self)@.read_up_to(delim) {
                Ok((bytes, next)) => r matches Ok(v) && v@ == bytes && final(self)@ == next,
                Err(e) => r matches Err(f) && f == e && final(self)@ == old(self)@,
            },
            final(self)@.wf(),
    {
        proof {
            use_type_invariant(&*self);
        }
        let ghost rest = self@.rest();
        let left: usize = self.body.len() - self.used;
        let owed: usize = self.size - self.used;
        let limit: usize = if left <= owed {
            left
        } else {
            owed
        };
        let mut i: usize = 0;
        while i < limit
            invariant
                i <= limit,
                limit <= left,
                limit <= owed,
                left == self.body@.len() - self.used,
                owed == self.size - self.used,
                *self == *old(self),
                rest == self@.rest(),
                forall|j: int| 0 <= j < i ==> rest[j] != delim,
            decreases limit - i,
        {
            if self.body[self.used + i] == delim {
                proof {
                    assert(rest[i as int] == delim);
                    lemma_first_index_is(rest, delim, i as int);
                }
                let v = slice_to_vec(self.body.as_slice(), self.used, self.used + i);
                self.used = self.used + i + 1;
                assert(v@ =~= rest.take(i as int));
                return Ok(v);
            }
            assert(rest[i as int] == self.body@[self.used + i]);
            i = i + 1;
        }
        proof {
            lemma_first_index(rest, delim);
            let k = first_index(rest, delim);
            if k < limit {
                assert(rest[k] == delim);
            }
        }
        if left <= owed {
            Err(Error::UnexpectedEof)
        } else {
            Err(Error::SizeMismatch)
        }
    }

    /// Tells if the end of the object has been reached.
    ///
    /// Tells based on the size declared in the object header, but when it
    /// has been reached, verifies that this is also the end of the stream,
    /// as a consistency check.
    pub fn eof(&mut self) -> (r: Result<bool, Error>)
        ensures
            r == old(self)@.eof(),
            final(self)@ == old(self)@,
            final(self)@.wf(),
    {
        proof {
            use_type_invariant(&*self);
        }
        if self.used < self.size {
            Ok(false)
        } else if self.body.len() - self.used == 0 {
            Ok(true)
        } else {
            Err(Error::TrailingBytes)
        }
    }
}

} // verus!
