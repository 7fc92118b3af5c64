//! Tools for reading packfiles and unpacking them to loose objects.

use vstd::prelude::*;

use crate::cursor::{read_byte, Cursor};
use crate::digest::{hex_encode, hex_string, sha1, sha1_digest};
use crate::error::Error;
use crate::obj_read::{open_object, ObjReader};
use crate::obj_type::ObjType;
use crate::obj_write::{installed, loose_object, object_name, ObjWriter, WriterView};
use crate::store::{extends, lemma_extends_twice, store_map, Files, Log, ObjectStore};
use crate::zlib::{inflate, zlib_stream};

verus! {

/// This wraps a buffer of bytes into a reader whose content is hashed
/// when reading ends.
pub struct HashingReader {
    pub reader: Cursor,
}

/// What `finish` says of a reader: the 20 bytes that follow what has been
/// read must be its SHA-1 digest, and nothing may follow them.
pub open spec fn check_footer(consumed: Seq<u8>, remaining: Seq<u8>) -> Result<(), Error> {
    if remaining.len() < 20 {
        Err(Error::UnexpectedEof)
    } else if remaining.take(20) != sha1(consumed)@ {
        Err(Error::ChecksumMismatch)
    } else if remaining.len() > 20 {
        Err(Error::Protocol)
    } else {
        Ok(())
    }
}

impl HashingReader {
    /// Creates a hashing reader.
    pub fn new(data: Vec<u8>) -> (r: HashingReader)
        ensures
            r.reader.consumed() == Seq::<u8>::empty(),
            r.reader.remaining() == data@,
    {
        HashingReader { reader: Cursor::new(data) }
    }

    /// Finishes reading from this reader and checks the final checksum.
    pub fn finish(self) -> (r: Result<(), Error>)
        ensures
            r == check_footer(self.reader.consumed(), self.reader.remaining()),
    {
        let mut reader = self.reader;
        let seen = reader.consumed_bytes();
        let hash = sha1_digest(seen.as_slice());
        let foot = reader.read_exact(20)?;
        if !crate::bytes::equal(hash.as_slice(), foot.as_slice()) {
            return Err(Error::ChecksumMismatch);
        }
        if reader.remaining_len() != 0 {
            return Err(Error::Protocol);
        }
        Ok(())
    }
}

/// Types of deltified objects.
#[derive(Clone, Copy, Debug, PartialEq, Eq, Structural)]
pub enum DeltaType {
    OfsDelta,
    RefDelta,
}

/// Object types in a packfile: either normal type (undeltified) or a
/// deltified type.
#[derive(Clone, Copy, Debug, PartialEq, Eq, Structural)]
pub enum PackObjType {
    Basic(ObjType),
    Delta(DeltaType),
}

impl PackObjType {
    /// The pack object type with the given numeric code.
    pub open spec fn of_byte(value: u8) -> Option<PackObjType> {
        if value == 1 {
            Some(PackObjType::Basic(ObjType::Commit))
        } else if value == 2 {
            Some(PackObjType::Basic(ObjType::Tree))
        } else if value == 3 {
            Some(PackObjType::Basic(ObjType::Blob))
        } else if value == 4 {
            Some(PackObjType::Basic(ObjType::Tag))
        } else if value == 6 {
            Some(PackObjType::Delta(DeltaType::OfsDelta))
        } else if value == 7 {
            Some(PackObjType::Delta(DeltaType::RefDelta))
        } else {
            None
        }
    }

    /// Gets the pack object type from its numeric code.
    pub fn from_byte(value: u8) -> (r: Result<PackObjType, Error>)
        ensures
            r == match PackObjType::of_byte(value) {
                Some(t) => Ok::<PackObjType, Error>(t),
                None => Err(Error::Malformed),
            },
    {
        match value {
            1 => Ok(PackObjType::Basic(ObjType::Commit)),
            2 => Ok(PackObjType::Basic(ObjType::Tree)),
            3 => Ok(PackObjType::Basic(ObjType::Blob)),
            4 => Ok(PackObjType::Basic(ObjType::Tag)),
            6 => Ok(PackObjType::Delta(DeltaType::OfsDelta)),
            7 => Ok(PackObjType::Delta(DeltaType::RefDelta)),
            _ => Err(Error::Malformed),
        }
    }
}

/// The weight of the lowest bit that follows the size bits of the first
/// byte of a size: two to the power of the seven bits without those
/// reserved for the type.
pub open spec fn size_scale(type_bits: u8) -> nat {
    if type_bits == 0 {
        128
    } else if type_bits == 1 {
        64
    } else if type_bits == 2 {
        32
    } else if type_bits == 3 {
        16
    } else if type_bits == 4 {
        8
    } else if type_bits == 5 {
        4
    } else if type_bits == 6 {
        2
    } else {
        1
    }
}

/// The continuation bytes of a size: each gives seven more bits, the
/// lowest weighing `scale`, and a byte below 128 is the last. Returns the
/// size, `acc` included, and what follows the size.
pub open spec fn size_tail(s: Seq<u8>, scale: nat, acc: nat) -> Option<(nat, Seq<u8>)>
    decreases s.len(),
{
    if s.len() == 0 {
        None
    } else {
        let total = (acc + (s[0] % 128) * scale) as nat;
        if s[0] < 128 {
            Some((total, s.skip(1)))
        } else {
            size_tail(s.skip(1), scale * 128, total)
        }
    }
}

/// A size in the variable-length format of packfiles, with the high
/// `type_bits` of the first byte's seven bits read as a type. Returns the
/// type, the size and what follows, or `None` where `s` ends too early.
pub open spec fn size_and_type(s: Seq<u8>, type_bits: u8) -> Option<(u8, nat, Seq<u8>)> {
    if s.len() == 0 {
        None
    } else {
        let low7 = (s[0] % 128) as nat;
        let scale = size_scale(type_bits);
        let type_id = (low7 / scale) as u8;
        if s[0] < 128 {
            Some((type_id, low7 % scale, s.skip(1)))
        } else {
            match size_tail(s.skip(1), scale, low7 % scale) {
                None => None,
                Some((size, rest)) => Some((type_id, size, rest)),
            }
        }
    }
}

/// Reads a size (and optionally a type) in the variable-length format
/// used in packfiles.
///
/// Pass `type_bits = 3` when reading a size in an object entry, and
/// `type_bits = 0` otherwise. Fails with `UnexpectedEof` where the buffer
/// ends within the size, all of it read, and with `Malformed` where the
/// size does not fit, with all of the size read.
pub fn read_size_and_opt_type(reader: &mut Cursor, type_bits: u8) -> (r: Result<
    (u8, usize),
    Error,
>)
    requires
        type_bits <= 7,
    ensures
        final(reader).buffer() == old(reader).buffer(),
        match size_and_type(old(reader).remaining(), type_bits) {
            None => {
                &&& r == Err::<(u8, usize), Error>(Error::UnexpectedEof)
                &&& final(reader).remaining() == Seq::<u8>::empty()
            },
            Some((type_id, size, rest)) => {
                &&& final(reader).remaining() == rest
                &&& if size <= usize::MAX {
                    r == Ok::<(u8, usize), Error>((type_id, size as usize))
                } else {
                    r == Err::<(u8, usize), Error>(Error::Malformed)
                }
            },
        },
{
    let ghost all = reader.remaining();
    let first: u8 = match read_byte(reader) {
        Ok(b) => b,
        Err(e) => {
            assert(reader.remaining() =~= Seq::<u8>::empty());
            return Err(e);
        },
    };
    let low7: u8 = first % 128;
    let m: u8 = if type_bits == 0 {
        128
    } else if type_bits == 1 {
        64
    } else if type_bits == 2 {
        32
    } else if type_bits == 3 {
        16
    } else if type_bits == 4 {
        8
    } else if type_bits == 5 {
        4
    } else if type_bits == 6 {
        2
    } else {
        1
    };
    let type_id: u8 = low7 / m;
    let mut size: usize = (low7 % m) as usize;
    if first < 128 {
        return Ok((type_id, size));
    }
    let mut scale: Option<usize> = Some(m as usize);
    let mut overflow: bool = false;
    let ghost mut acc: nat = size as nat;
    let ghost mut weight: nat = m as nat;
    let ghost target = size_tail(all.skip(1), m as nat, size as nat);
    loop
        invariant
            reader.buffer() == old(reader).buffer(),
            size_and_type(old(reader).remaining(), type_bits) == match target {
                None => None::<(u8, nat, Seq<u8>)>,
                Some((total, rest)) => Some((type_id, total, rest)),
            },
            target == size_tail(reader.remaining(), weight, acc),
            !overflow ==> size == acc,
            overflow ==> acc > usize::MAX,
            scale matches Some(x) ==> x == weight,
            scale is None ==> weight > usize::MAX,
            weight > 0,
        decreases reader.remaining().len(),
    {
        let ghost rest = reader.remaining();
        let byte: u8 = match read_byte(reader) {
            Ok(b) => b,
            Err(e) => {
                assert(reader.remaining() =~= Seq::<u8>::empty());
                return Err(e);
            },
        };
        let bits: usize = (byte % 128) as usize;
        let ghost term: nat = bits as nat * weight;
        proof {
            assert(rest[0] == byte);
            assert((rest[0] % 128) * weight == term);
            assert(term >= 0);
            if bits != 0 {
                assert(bits as nat * weight >= weight) by (nonlinear_arith)
                    requires
                        bits >= 1,
                        weight > 0,
                ;
            } else {
                assert(bits as nat * weight == 0) by (nonlinear_arith)
                    requires
                        bits == 0,
                ;
            }
            acc = acc + term;
        }
        if bits != 0 && !overflow {
            match scale {
                None => {
                    overflow = true;
                },
                Some(x) => {
                    assert(bits * x == term);
                    match bits.checked_mul(x) {
                        None => {
                            overflow = true;
                        },
                        Some(t) => match size.checked_add(t) {
                            None => {
                                overflow = true;
                            },
                            Some(total) => {
                                size = total;
                            },
                        },
                    }
                },
            }
        }
        if byte < 128 {
            assert(target == Some((acc, rest.skip(1))));
            if overflow {
                return Err(Error::Malformed);
            } else {
                return Ok((type_id, size));
            }
        }
        assert(target == size_tail(rest.skip(1), weight * 128, acc));
        scale = match scale {
            Some(x) => x.checked_mul(128),
            None => None,
        };
        proof {
            weight = weight * 128;
        }
    }
}

/// The byte that a flag of a copy instruction announces: the first byte
/// of `s` if the flag is set, and zero, with nothing read, if it is not.
pub open spec fn flagged_byte(s: Seq<u8>, flag: bool) -> Option<(nat, Seq<u8>)> {
    if !flag {
        Some((0, s))
    } else if s.len() == 0 {
        None
    } else {
        Some((s[0] as nat, s.skip(1)))
    }
}

/// The offset of a copy instruction: the low four bits of `bitmap` say
/// which of the four bytes of a little-endian number follow.
pub open spec fn copy_offset(s: Seq<u8>, bitmap: u8) -> Option<(nat, Seq<u8>)> {
    match flagged_byte(s, bitmap % 2 == 1) {
        None => None,
        Some((b0, s1)) => match flagged_byte(s1, (bitmap / 2) % 2 == 1) {
            None => None,
            Some((b1, s2)) => match flagged_byte(s2, (bitmap / 4) % 2 == 1) {
                None => None,
                Some((b2, s3)) => match flagged_byte(s3, (bitmap / 8) % 2 == 1) {
                    None => None,
                    Some((b3, s4)) => Some((b0 + 256 * b1 + 65536 * b2 + 16777216 * b3, s4)),
                },
            },
        },
    }
}

/// The size of a copy instruction: bits 4 to 6 of `bitmap` say which of
/// the three bytes of a little-endian number follow.
pub open spec fn copy_size(s: Seq<u8>, bitmap: u8) -> Option<(nat, Seq<u8>)> {
    match flagged_byte(s, (bitmap / 16) % 2 == 1) {
        None => None,
        Some((b0, s1)) => match flagged_byte(s1, (bitmap / 32) % 2 == 1) {
            None => None,
            Some((b1, s2)) => match flagged_byte(s2, (bitmap / 64) % 2 == 1) {
                None => None,
                Some((b2, s3)) => Some((b0 + 256 * b1 + 65536 * b2, s3)),
            },
        },
    }
}

/// Reads the byte that a flag announces.
fn read_flagged(reader: &mut Cursor, flag: bool) -> (r: Result<u64, Error>)
    ensures
        final(reader).buffer() == old(reader).buffer(),
        match flagged_byte(old(reader).remaining(), flag) {
            None => {
                &&& r == Err::<u64, Error>(Error::UnexpectedEof)
                &&& final(reader).remaining() == Seq::<u8>::empty()
            },
            Some((b, rest)) => {
                &&& r == Ok::<u64, Error>(b as u64)
                &&& b < 256
                &&& final(reader).remaining() == rest
            },
        },
{
    if flag {
        match read_byte(reader) {
            Ok(b) => Ok(b as u64),
            Err(e) => {
                assert(reader.remaining() =~= Seq::<u8>::empty());
                Err(e)
            },
        }
    } else {
        Ok(0)
    }
}

/// Reads the offset component of a copy instruction. Fails with
/// `UnexpectedEof` where the buffer ends within it, all of it read.
pub fn read_copy_offset(reader: &mut Cursor, bitmap: u8) -> (r: Result<u64, Error>)
    ensures
        final(reader).buffer() == old(reader).buffer(),
        match copy_offset(old(reader).remaining(), bitmap) {
            None => {
                &&& r == Err::<u64, Error>(Error::UnexpectedEof)
                &&& final(reader).remaining() == Seq::<u8>::empty()
            },
            Some((offset, rest)) => {
                &&& r == Ok::<u64, Error>(offset as u64)
                &&& offset < 0x1_0000_0000
                &&& final(reader).remaining() == rest
            },
        },
{
    let b0 = read_flagged(reader, bitmap % 2 == 1)?;
    let b1 = read_flagged(reader, (bitmap / 2) % 2 == 1)?;
    let b2 = read_flagged(reader, (bitmap / 4) % 2 == 1)?;
    let b3 = read_flagged(reader, (bitmap / 8) % 2 == 1)?;
    Ok(b0 + 256 * b1 + 65536 * b2 + 16777216 * b3)
}

/// Reads the size component of a copy instruction. Fails with
/// `UnexpectedEof` where the buffer ends within it, all of it read.
pub fn read_copy_size(reader: &mut Cursor, bitmap: u8) -> (r: Result<u64, Error>)
    ensures
        final(reader).buffer() == old(reader).buffer(),
        match copy_size(old(reader).remaining(), bitmap) {
            None => {
                &&& r == Err::<u64, Error>(Error::UnexpectedEof)
                &&& final(reader).remaining() == Seq::<u8>::empty()
            },
            Some((size, rest)) => {
                &&& r == Ok::<u64, Error>(size as u64)
                &&& size < 0x100_0000
                &&& final(reader).remaining() == rest
            },
        },
{
    let b0 = read_flagged(reader, (bitmap / 16) % 2 == 1)?;
    let b1 = read_flagged(reader, (bitmap / 32) % 2 == 1)?;
    let b2 = read_flagged(reader, (bitmap / 64) % 2 == 1)?;
    Ok(b0 + 256 * b1 + 65536 * b2)
}

/// The bytes that a copy instruction takes from the base: `size` bytes
/// from `offset` on, where a size of zero stands for 0x10000, and no more
/// than the base holds.
pub open spec fn copy_range(base: Seq<u8>, offset: nat, size: nat) -> Seq<u8> {
    let count = if size == 0 {
        0x10000
    } else {
        size as int
    };
    let start = if offset <= base.len() {
        offset as int
    } else {
        base.len() as int
    };
    let end = if offset + count <= base.len() {
        offset + count
    } else {
        base.len() as int
    };
    base.subrange(start, end)
}

/// Carrying out the instructions of a delta on a writer. An instruction
/// byte of 128 or more copies from the base; one below adds that many of
/// the bytes that follow it. Fails with `Malformed` where the
/// instructions end within one, and with `SizeExceeded` as soon as more is
/// written than the writer was made for.
pub open spec fn run_delta(base: Seq<u8>, instr: Seq<u8>, w: WriterView) -> Result<
    WriterView,
    Error,
>
    decreases instr.len(),
{
    if instr.len() == 0 {
        Ok(w)
    } else {
        let first = instr[0];
        let rest = instr.skip(1);
        if first >= 128 {
            match copy_offset(rest, first) {
                None => Err(Error::Malformed),
                Some((offset, s1)) => match copy_size(s1, first) {
                    None => Err(Error::Malformed),
                    Some((size, s2)) => {
                        let chunk = copy_range(base, offset, size);
                        if !w.accepts(chunk) {
                            Err(Error::SizeExceeded)
                        } else if s2.len() < instr.len() {
                            run_delta(base, s2, w.write(chunk))
                        } else {
                            Err(Error::Malformed)
                        }
                    },
                },
            }
        } else if rest.len() < first {
            Err(Error::Malformed)
        } else if !w.accepts(rest.take(first as int)) {
            Err(Error::SizeExceeded)
        } else {
            run_delta(base, rest.skip(first as int), w.write(rest.take(first as int)))
        }
    }
}

/// A delta changes the payload of a writer and nothing else.
pub proof fn lemma_run_delta(base: Seq<u8>, instr: Seq<u8>, w: WriterView)
    ensures
        run_delta(base, instr, w) matches Ok(r) ==> r.obj_type == w.obj_type && r.size == w.size
            && r.persist == w.persist && r.exceeded == w.exceeded,
    decreases instr.len(),
{
    if instr.len() > 0 {
        let first = instr[0];
        let rest = instr.skip(1);
        if first >= 128 {
            match copy_offset(rest, first) {
                None => {},
                Some((offset, s1)) => match copy_size(s1, first) {
                    None => {},
                    Some((size, s2)) => {
                        let chunk = copy_range(base, offset, size);
                        if w.accepts(chunk) && s2.len() < instr.len() {
                            lemma_run_delta(base, s2, w.write(chunk));
                        }
                    },
                },
            }
        } else if rest.len() >= first && w.accepts(rest.take(first as int)) {
            lemma_run_delta(base, rest.skip(first as int), w.write(rest.take(first as int)));
        }
    }
}

/// The arguments of a copy instruction leave no more than they were
/// given.
pub proof fn lemma_copy_args(s: Seq<u8>, bitmap: u8)
    ensures
        copy_offset(s, bitmap) matches Some((offset, s1)) ==> s1.len() <= s.len() && (copy_size(
            s1,
            bitmap,
        ) matches Some((size, s2)) ==> s2.len() <= s.len()),
{
}

/// Unpacking one undeltified entry: the zlib stream that follows must
/// expand to exactly `size` bytes, which become an object of the given
/// type. Returns what follows the entry or the error, and the journal
/// after.
pub open spec fn unpack_basic(s: Seq<u8>, obj_type: ObjType, size: nat, log: Log) -> (
    Result<Seq<u8>, Error>,
    Log,
) {
    match zlib_stream(s) {
        None => (Err(Error::CorruptStream), log),
        Some((data, used)) => if data.len() > size {
            (Err(Error::SizeExceeded), log)
        } else if data.len() < size {
            (Err(Error::SizeShort), log)
        } else {
            (Ok(s.skip(used)), installed(log, obj_type, data))
        },
    }
}

/// Unpacking one reference delta: the 20 bytes of the base's digest, then
/// a zlib stream of `instr_size` bytes that holds the size of the base,
/// the size of the result, and the instructions. The base is looked up in
/// the store; the result has its type.
pub open spec fn unpack_delta(s: Seq<u8>, instr_size: nat, log: Log) -> (
    Result<Seq<u8>, Error>,
    Log,
) {
    if s.len() < 20 {
        (Err(Error::UnexpectedEof), log)
    } else {
        match zlib_stream(s.skip(20)) {
            None => (Err(Error::CorruptStream), log),
            Some((instr, used)) => match rebuild(store_map(log), s.take(20), instr, instr_size) {
                Err(e) => (Err(e), log),
                Ok((obj_type, payload)) => (
                    Ok(s.skip(20).skip(used)),
                    installed(log, obj_type, payload),
                ),
            },
        }
    }
}

/// The object that a delta stands for: its type, which is that of the
/// base, and its payload.
#[verifier::opaque]
pub open spec fn rebuild(
    store: Files,
    base_digest: Seq<u8>,
    instr: Seq<u8>,
    instr_size: nat,
) -> Result<(ObjType, Seq<u8>), Error> {
    if instr.len() != instr_size {
        Err(Error::Malformed)
    } else {
        match size_and_type(instr, 0) {
            None => Err(Error::Malformed),
            Some((_, base_size, s1)) => match size_and_type(s1, 0) {
                None => Err(Error::Malformed),
                Some((_, size, s2)) => if base_size > usize::MAX || size > usize::MAX {
                    Err(Error::Malformed)
                } else {
                    match open_object(store, hex_encode(base_digest)) {
                        Err(e) => Err(e),
                        Ok(v) => if v.size != base_size {
                            Err(Error::ChecksumMismatch)
                        } else {
                            match v.read_to_end() {
                                Err(e) => Err(e),
                                Ok((base, _)) => match run_delta(
                                    base,
                                    s2,
                                    WriterView::start(v.obj_type, size, true),
                                ) {
                                    Err(e) => Err(e),
                                    Ok(w) => match w.finish_error() {
                                        Some(e) => Err(e),
                                        None => Ok((v.obj_type, w.payload)),
                                    },
                                },
                            }
                        },
                    }
                },
            },
        }
    }
}

/// Unpacking one entry: a size with a three-bit type, then the entry of
/// that type.
#[verifier::opaque]
pub open spec fn unpack_entry(s: Seq<u8>, log: Log) -> (Result<Seq<u8>, Error>, Log) {
    match size_and_type(s, 3) {
        None => (Err(Error::UnexpectedEof), log),
        Some((type_id, size, rest)) => if size > usize::MAX {
            (Err(Error::Malformed), log)
        } else {
            match PackObjType::of_byte(type_id) {
                None => (Err(Error::Malformed), log),
                Some(PackObjType::Basic(obj_type)) => unpack_basic(rest, obj_type, size, log),
                Some(PackObjType::Delta(DeltaType::RefDelta)) => unpack_delta(rest, size, log),
                Some(PackObjType::Delta(DeltaType::OfsDelta)) => (
                    Err(Error::OfsDeltaUnsupported),
                    log,
                ),
            }
        },
    }
}

/// Unpacking `count` entries one after the other.
pub open spec fn unpack_entries(s: Seq<u8>, count: nat, log: Log) -> (
    Result<Seq<u8>, Error>,
    Log,
)
    decreases count,
{
    if count == 0 {
        (Ok(s), log)
    } else {
        match unpack_entry(s, log) {
            (Err(e), after) => (Err(e), after),
            (Ok(rest), after) => unpack_entries(rest, (count - 1) as nat, after),
        }
    }
}

/// The signature and version that a packfile starts with: `PACK`, then 2
/// as a big-endian number of four bytes.
pub open spec fn pack_magic() -> Seq<u8> {
    seq![80u8, 65u8, 67u8, 75u8, 0u8, 0u8, 0u8, 2u8]
}

/// The big-endian number that four bytes denote.
pub open spec fn be32(b: Seq<u8>) -> nat {
    (b[0] * 16777216 + b[1] * 65536 + b[2] * 256 + b[3]) as nat
}

/// What remains to be checked once the entries have been unpacked: the
/// footer.
pub open spec fn unpack_end(pack: Seq<u8>, count: nat, entries: (Result<Seq<u8>, Error>, Log)) -> (
    Result<u32, Error>,
    Log,
) {
    match entries {
        (Err(e), after) => (Err(e), after),
        (Ok(rest), after) => match check_footer(
            pack.take(pack.len() - rest.len()),
            pack.skip(pack.len() - rest.len()),
        ) {
            Err(e) => (Err(e), after),
            Ok(_) => (Ok(count as u32), after),
        },
    }
}

/// Unpacking a packfile into the journal `log`: the header, the entries
/// that it announces, and the footer, which must be the SHA-1 digest of
/// all that precedes it and end the file. Returns the number of entries
/// or the error, and the journal after.
pub open spec fn unpack(pack: Seq<u8>, log: Log) -> (Result<u32, Error>, Log) {
    if pack.len() < 12 {
        (Err(Error::UnexpectedEof), log)
    } else if pack.take(8) != pack_magic() {
        (Err(Error::Malformed), log)
    } else {
        let count = be32(pack.subrange(8, 12));
        unpack_end(pack, count, unpack_entries(pack.skip(12), count, log))
    }
}

/// Whether an install is that of some object under its own name: the
/// file expands to an object, and the name is the digest of that object.
pub open spec fn content_addressed(entry: (Seq<u8>, Option<Seq<u8>>)) -> bool {
    exists|obj_type: ObjType, payload: Seq<u8>|
        entry == (
            #[trigger] object_name(obj_type, payload),
            Some(loose_object(obj_type, payload)),
        )
}

/// Whether the journal `after` is the journal `before` with `n` more
/// installs, each of them that of an object under its own name.
pub open spec fn grown_by(before: Log, after: Log, n: nat) -> bool {
    &&& after.len() == before.len() + n
    &&& after.take(before.len() as int) == before
    &&& forall|i: int| before.len() <= i < after.len() ==> content_addressed(#[trigger] after[i])
}

/// An entry that is unpacked installs one object under its own name; one
/// that fails installs nothing.
pub proof fn lemma_unpack_entry(s: Seq<u8>, log: Log)
    ensures
        unpack_entry(s, log).0 is Ok ==> grown_by(log, unpack_entry(s, log).1, 1),
        unpack_entry(s, log).0 is Err ==> unpack_entry(s, log).1 == log,
{
    reveal(unpack_entry);
    let (r, after) = unpack_entry(s, log);
    if r is Ok {
        assert(after.take(log.len() as int) =~= log);
        match size_and_type(s, 3) {
            Some((type_id, size, rest)) => match PackObjType::of_byte(type_id) {
                Some(PackObjType::Basic(obj_type)) => {
                    let data = zlib_stream(rest).unwrap().0;
                    assert(after[log.len() as int] == (
                        object_name(obj_type, data),
                        Some(loose_object(obj_type, data)),
                    ));
                },
                Some(PackObjType::Delta(DeltaType::RefDelta)) => {
                    let instr = zlib_stream(rest.skip(20)).unwrap().0;
                    let built = rebuild(store_map(log), rest.take(20), instr, size)->Ok_0;
                    assert(after[log.len() as int] == (
                        object_name(built.0, built.1),
                        Some(loose_object(built.0, built.1)),
                    ));
                },
                _ => {},
            },
            None => {},
        }
    }
}

/// Unpacking `count` entries installs `count` objects, each under its own
/// name.
pub proof fn lemma_unpack_entries(s: Seq<u8>, count: nat, log: Log)
    ensures
        unpack_entries(s, count, log).0 is Ok ==> grown_by(
            log,
            unpack_entries(s, count, log).1,
            count,
        ),
    decreases count,
{
    if count == 0 {
        assert(log.take(log.len() as int) =~= log);
    } else {
        lemma_unpack_entry(s, log);
        let (r, mid) = unpack_entry(s, log);
        if r is Ok {
            lemma_unpack_entries(r->Ok_0, (count - 1) as nat, mid);
            let after = unpack_entries(r->Ok_0, (count - 1) as nat, mid).1;
            if unpack_entries(s, count, log).0 is Ok {
                assert(after.take(log.len() as int) =~= mid.take(log.len() as int)) by {
                    assert(after.take(mid.len() as int) == mid);
                    assert forall|i: int| 0 <= i < log.len() implies after[i] == mid[i] by {
                        assert(after.take(mid.len() as int)[i] == after[i]);
                    }
                }
                assert forall|i: int| log.len() <= i < after.len() implies content_addressed(
                    #[trigger] after[i],
                ) by {
                    if i < mid.len() {
                        assert(after.take(mid.len() as int)[i] == after[i]);
                        assert(content_addressed(mid[i]));
                    }
                }
            }
        }
    }
}

/// A packfile that is unpacked installs as many objects as its header
/// announces, each under the name that its content gives it.
pub proof fn lemma_unpack_installs(pack: Seq<u8>, log: Log)
    ensures
        unpack(pack, log).0 matches Ok(n) ==> n == be32(pack.subrange(8, 12)) && grown_by(
            log,
            unpack(pack, log).1,
            n as nat,
        ),
{
    if pack.len() >= 12 && pack.take(8) == pack_magic() {
        let count = be32(pack.subrange(8, 12));
        lemma_unpack_entries(pack.skip(12), count, log);
    }
}

/// The object that a delta stands for depends on the store only through
/// its base: two stores in which the base opens alike give the same
/// object, byte for byte.
pub proof fn lemma_rebuild_same_base(
    store1: Files,
    store2: Files,
    base_digest: Seq<u8>,
    instr: Seq<u8>,
    instr_size: nat,
)
    requires
        open_object(store1, hex_encode(base_digest)) == open_object(
            store2,
            hex_encode(base_digest),
        ),
    ensures
        rebuild(store1, base_digest, instr, instr_size) == rebuild(
            store2,
            base_digest,
            instr,
            instr_size,
        ),
{
    reveal(rebuild);
}

/// Unpacking the same reference delta a second time installs the same
/// object again, as long as the first time has left the base as it was.
pub proof fn lemma_unpack_delta_twice(s: Seq<u8>, instr_size: nat, log: Log)
    requires
        s.len() >= 20,
        unpack_delta(s, instr_size, log).0 is Ok,
        open_object(store_map(unpack_delta(s, instr_size, log).1), hex_encode(s.take(20)))
            == open_object(store_map(log), hex_encode(s.take(20))),
    ensures
        ({
            let once = unpack_delta(s, instr_size, log);
            let twice = unpack_delta(s, instr_size, once.1);
            &&& twice.0 == once.0
            &&& twice.1 == once.1.push(once.1.last())
        }),
{
    let once = unpack_delta(s, instr_size, log);
    let instr = zlib_stream(s.skip(20)).unwrap().0;
    lemma_rebuild_same_base(store_map(once.1), store_map(log), s.take(20), instr, instr_size);
}

/// What follows the zlib stream at the start of `s`: all of `s` where it
/// starts with no intact stream.
pub open spec fn after_stream(s: Seq<u8>) -> Seq<u8> {
    match zlib_stream(s) {
        Some((_, used)) => s.skip(used),
        None => s,
    }
}

/// Where the reading of a reference delta ends, whether it is unpacked or
/// not: behind the digest of the base and the stream of the instructions,
/// as far as they are there.
pub open spec fn after_delta(s: Seq<u8>) -> Seq<u8> {
    if s.len() < 20 {
        s
    } else {
        after_stream(s.skip(20))
    }
}

/// Where the reading of an entry ends, whether it is unpacked or not:
/// behind its size and, where its type is one that is unpacked, behind
/// its stream.
pub open spec fn after_entry(s: Seq<u8>) -> Seq<u8> {
    match size_and_type(s, 3) {
        None => Seq::empty(),
        Some((type_id, size, rest)) => if size > usize::MAX {
            rest
        } else {
            match PackObjType::of_byte(type_id) {
                Some(PackObjType::Basic(_)) => after_stream(rest),
                Some(PackObjType::Delta(DeltaType::RefDelta)) => after_delta(rest),
                _ => rest,
            }
        },
    }
}

/// Reads an undeltified object's data and writes the object to the store.
/// The stream of the data is read whether its size is the announced one
/// or not.
pub fn unpack_undeltified(
    reader: &mut HashingReader,
    obj_type: ObjType,
    size: usize,
    store: &mut ObjectStore,
) -> (r: Result<(), Error>)
    ensures
        final(reader).reader.buffer() == old(reader).reader.buffer(),
        final(reader).reader.remaining() == after_stream(old(reader).reader.remaining()),
        extends(final(store).slots(), old(store).slots()),
        final(store).log() == unpack_basic(
            old(reader).reader.remaining(),
            obj_type,
            size as nat,
            old(store).log(),
        ).1,
        match unpack_basic(
            old(reader).reader.remaining(),
            obj_type,
            size as nat,
            old(store).log(),
        ).0 {
            Ok(rest) => r is Ok && final(reader).reader.remaining() == rest,
            Err(e) => r == Err::<(), Error>(e),
        },
{
    assert(store.slots().take(store.slots().len() as int) =~= store.slots());
    let (data, used) = match inflate(reader.reader.rest()) {
        Some(found) => found,
        None => {
            return Err(Error::CorruptStream);
        },
    };
    reader.reader.advance(used);
    let mut object = ObjWriter::new(obj_type, size, true);
    match object.write(data.as_slice()) {
        Ok(_) => {},
        Err(e) => {
            return Err(e);
        },
    }
    assert(object@.payload =~= data@);
    match object.finish(store) {
        Ok(_) => {},
        Err(e) => {
            return Err(e);
        },
    }
    Ok(())
}

/// Carries out the instructions of a delta.
fn apply_delta(base: &[u8], instr: &mut Cursor, writer: &mut ObjWriter) -> (r: Result<(), Error>)
    ensures
        final(writer).nonce() == old(writer).nonce(),
        match run_delta(base@, old(instr).remaining(), old(writer)@) {
            Ok(w) => r is Ok && final(writer)@ == w,
            Err(e) => r == Err::<(), Error>(e),
        },
{
    loop
        invariant
            writer.nonce() == old(writer).nonce(),
            run_delta(base@, old(instr).remaining(), old(writer)@) == run_delta(
                base@,
                instr.remaining(),
                writer@,
            ),
        decreases instr.remaining().len(),
    {
        let ghost here = instr.remaining();
        let first_byte: u8 = match read_byte(instr) {
            Ok(b) => b,
            Err(_) => {
                return Ok(());
            },
        };
        if first_byte >= 128 {
            proof {
                lemma_copy_args(here.skip(1), first_byte);
            }
            let offset = match read_copy_offset(instr, first_byte) {
                Ok(o) => o,
                Err(_) => {
                    return Err(Error::Malformed);
                },
            };
            let copy_size = match read_copy_size(instr, first_byte) {
                Ok(s) => s,
                Err(_) => {
                    return Err(Error::Malformed);
                },
            };
            let count: u64 = if copy_size == 0 {
                0x10000
            } else {
                copy_size
            };
            let len: u64 = base.len() as u64;
            let start: usize = if offset <= len {
                offset as usize
            } else {
                base.len()
            };
            let end: usize = if offset + count <= len {
                (offset + count) as usize
            } else {
                base.len()
            };
            let chunk = vstd::slice::slice_subrange(base, start, end);
            assert(chunk@ == copy_range(base@, offset as nat, copy_size as nat));
            match writer.write(chunk) {
                Ok(_) => {},
                Err(e) => {
                    return Err(e);
                },
            }
        } else {
            let add_size: usize = first_byte as usize;
            let buf = match instr.read_exact(add_size) {
                Ok(b) => b,
                Err(_) => {
                    return Err(Error::Malformed);
                },
            };
            match writer.write(buf.as_slice()) {
                Ok(_) => {},
                Err(e) => {
                    return Err(e);
                },
            }
        }
    }
}

/// Reconstructs the object that the instructions of a delta stand for,
/// from the base that `store` holds under the given digest. Returns a
/// writer that holds the object and is ready to be finished.
fn rebuild_object(store: &ObjectStore, digest: &[u8], instr: Vec<u8>, instr_size: usize) -> (r:
    Result<ObjWriter, Error>)
    ensures
        match rebuild(store@, digest@, instr@, instr_size as nat) {
            Ok((obj_type, payload)) => r matches Ok(w) && w@.obj_type == obj_type && w@.payload
                == payload && w@.persist && w@.finish_error() is None,
            Err(e) => r matches Err(f) && f == e,
        },
{
    reveal(rebuild);
    if instr.len() != instr_size {
        return Err(Error::Malformed);
    }
    let mut cursor = Cursor::new(instr);
    let (_, base_size) = match read_size_and_opt_type(&mut cursor, 0) {
        Ok(found) => found,
        Err(_) => {
            return Err(Error::Malformed);
        },
    };
    let (_, obj_size) = match read_size_and_opt_type(&mut cursor, 0) {
        Ok(found) => found,
        Err(_) => {
            return Err(Error::Malformed);
        },
    };
    let hash = hex_string(digest);
    let mut base_obj = ObjReader::from_hash(store, hash.as_str())?;
    if base_obj.size() != base_size {
        return Err(Error::ChecksumMismatch);
    }
    let base_obj_type = base_obj.obj_type();
    let base = base_obj.read_to_end()?;
    let mut writer = ObjWriter::new(base_obj_type, obj_size, true);
    proof {
        lemma_run_delta(base@, cursor.remaining(), writer@);
    }
    apply_delta(base.as_slice(), &mut cursor, &mut writer)?;
    writer.check()?;
    Ok(writer)
}

/// Reads a deltified object's instructions and writes the object that
/// they stand for to the store.
///
/// This involves reconstructing the object from a base object and a
/// series of instructions to either add new data or copy from the base
/// object. The digest of the base and the stream of the instructions are
/// read whether the object can be reconstructed or not.
pub fn unpack_ref_delta(
    reader: &mut HashingReader,
    instr_size: usize,
    store: &mut ObjectStore,
) -> (r: Result<(), Error>)
    ensures
        final(reader).reader.buffer() == old(reader).reader.buffer(),
        final(reader).reader.remaining() == after_delta(old(reader).reader.remaining()),
        extends(final(store).slots(), old(store).slots()),
        final(store).log() == unpack_delta(
            old(reader).reader.remaining(),
            instr_size as nat,
            old(store).log(),
        ).1,
        match unpack_delta(old(reader).reader.remaining(), instr_size as nat, old(store).log()).0 {
            Ok(rest) => r is Ok && final(reader).reader.remaining() == rest,
            Err(e) => r == Err::<(), Error>(e),
        },
{
    assert(store.slots().take(store.slots().len() as int) =~= store.slots());
    let digest = reader.reader.read_exact(20)?;
    let (instr, used) = match inflate(reader.reader.rest()) {
        Some(found) => found,
        None => {
            return Err(Error::CorruptStream);
        },
    };
    reader.reader.advance(used);
    let writer = rebuild_object(store, digest.as_slice(), instr, instr_size)?;
    match writer.finish(store) {
        Ok(_) => {},
        Err(_) => vstd::pervasive::unreached(),
    }
    Ok(())
}

/// Reads an object entry and writes it out as a loose object. What is
/// read of an entry that cannot be unpacked stays read.
pub fn unpack_object(reader: &mut HashingReader, store: &mut ObjectStore) -> (r: Result<(), Error>)
    ensures
        final(reader).reader.buffer() == old(reader).reader.buffer(),
        final(reader).reader.remaining() == after_entry(old(reader).reader.remaining()),
        extends(final(store).slots(), old(store).slots()),
        final(store).log() == unpack_entry(old(reader).reader.remaining(), old(store).log()).1,
        match unpack_entry(old(reader).reader.remaining(), old(store).log()).0 {
            Ok(rest) => r is Ok && final(reader).reader.remaining() == rest,
            Err(e) => r == Err::<(), Error>(e),
        },
{
    reveal(unpack_entry);
    assert(store.slots().take(store.slots().len() as int) =~= store.slots());
    let (type_id, size) = read_size_and_opt_type(&mut reader.reader, 3)?;
    let pack_type = PackObjType::from_byte(type_id)?;
    match pack_type {
        PackObjType::Basic(obj_type) => unpack_undeltified(reader, obj_type, size, store),
        PackObjType::Delta(DeltaType::RefDelta) => unpack_ref_delta(reader, size, store),
        PackObjType::Delta(DeltaType::OfsDelta) => Err(Error::OfsDeltaUnsupported),
    }
}

/// Reads a packfile, writes all its objects to the store, and returns the
/// number of objects written.
pub fn unpack_from(pack: Vec<u8>, store: &mut ObjectStore) -> (r: Result<u32, Error>)
    ensures
        r == unpack(pack@, old(store).log()).0,
        final(store).log() == unpack(pack@, old(store).log()).1,
        extends(final(store).slots(), old(store).slots()),
{
    assert(store.slots().take(store.slots().len() as int) =~= store.slots());
    let mut reader = HashingReader::new(pack);
    let head = reader.reader.read_exact(12)?;
    let magic: [u8; 8] = [80, 65, 67, 75, 0, 0, 0, 2];
    let found = vstd::slice::slice_subrange(head.as_slice(), 0, 8);
    assert(found@ =~= pack@.take(8));
    assert(magic@ =~= pack_magic());
    if !crate::bytes::equal(found, magic.as_slice()) {
        return Err(Error::Malformed);
    }
    assert(pack@.subrange(8, 12) =~= head@.subrange(8, 12));
    let nb_obj: u32 = (head[8] as u32) * 16777216 + (head[9] as u32) * 65536 + (head[10] as u32)
        * 256 + (head[11] as u32);
    let ghost whole = unpack(pack@, old(store).log());
    let ghost entries = unpack_entries(pack@.skip(12), nb_obj as nat, old(store).log());
    assert(whole == unpack_end(pack@, nb_obj as nat, entries));
    let mut i: u32 = 0;
    while i < nb_obj
        invariant
            i <= nb_obj,
            reader.reader.buffer() == pack@,
            extends(store.slots(), old(store).slots()),
            whole == unpack(pack@, old(store).log()),
            whole == unpack_end(pack@, nb_obj as nat, entries),
            entries == unpack_entries(pack@.skip(12), nb_obj as nat, old(store).log()),
            unpack_entries(pack@.skip(12), nb_obj as nat, old(store).log()) == unpack_entries(
                reader.reader.remaining(),
                (nb_obj - i) as nat,
                store.log(),
            ),
        decreases nb_obj - i,
    {
        let ghost slots_before = store.slots();
        let done = unpack_object(&mut reader, store);
        proof {
            lemma_extends_twice(old(store).slots(), slots_before, store.slots());
        }
        done?;
        i = i + 1;
    }
    proof {
        let rest = reader.reader.remaining();
        let seen = reader.reader.consumed();
        assert(seen.len() + rest.len() == pack@.len());
        assert(pack@.take(pack@.len() - rest.len()) =~= seen);
        assert(pack@.skip(pack@.len() - rest.len()) =~= rest);
    }
    reader.finish()?;
    Ok(nb_obj)
}

} // verus!
