//! The subset of the Git v2 protocol (over HTTP) that is used to
//! minimally clone: pkt-line framing, the side-band of a fetch response,
//! and the two requests with their responses.
//!
//! The discovery phase is skipped: the server is assumed to implement the
//! smart HTTP protocol v2.

use vstd::prelude::*;
use vstd::utf8::{encode_utf8, valid_utf8};

use crate::bytes::{append, append_str, equal_str, lit, slice_to_vec, string_from_utf8};
use crate::cursor::Cursor;
use crate::digest::{hex_value, is_hex_digit};
use crate::error::Error;

verus! {

/// The name of the header that asks for version 2 of the protocol.
pub const PROTOCOL_HEADER: &'static str = "git-protocol";

/// The value of the header that asks for version 2 of the protocol.
pub const PROTOCOL_VERSION: &'static str = "version=2";

/// The size of the buffer of a packfile reader.
pub const BUF_SIZE: usize = 8192;

/// The length that the four hexadecimal digits at the start of `s`
/// announce for what follows them: `None` for a flush packet. The digits
/// count themselves in, so one to three is no length.
pub open spec fn pkt_len(s: Seq<u8>) -> Result<Option<nat>, Error> {
    if s.len() < 4 {
        Err(Error::UnexpectedEof)
    } else if !(is_hex_digit(s[0]) && is_hex_digit(s[1]) && is_hex_digit(s[2]) && is_hex_digit(
        s[3],
    )) {
        Err(Error::Protocol)
    } else {
        let len = hex_value(s[0]) * 4096 + hex_value(s[1]) * 256 + hex_value(s[2]) * 16 + hex_value(
            s[3],
        );
        if len == 0 {
            Ok(None)
        } else if len < 4 {
            Err(Error::Protocol)
        } else {
            Ok(Some((len - 4) as nat))
        }
    }
}

/// The value of a hexadecimal digit, if `b` is one.
fn hex_digit_value(b: u8) -> (r: Option<usize>)
    ensures
        r is Some <==> is_hex_digit(b),
        r matches Some(v) ==> v == hex_value(b) && v < 16,
{
    if 48 <= b && b <= 57 {
        Some((b - 48) as usize)
    } else if 97 <= b && b <= 102 {
        Some((b - 87) as usize)
    } else if 65 <= b && b <= 70 {
        Some((b - 55) as usize)
    } else {
        None
    }
}

/// What follows the length of a packet line: what follows the first four
/// bytes, or all of `s` where it holds fewer.
pub open spec fn after_length(s: Seq<u8>) -> Seq<u8> {
    if s.len() < 4 {
        s
    } else {
        s.skip(4)
    }
}

/// Reads the length of a packet line. Returns the length of the following
/// data (excluding the length bytes), or `None` for a flush packet. The
/// four bytes of the length are read whether they are a length or not;
/// where fewer are left, none is read.
pub fn read_pkt_line_len(src: &mut Cursor) -> (r: Result<Option<usize>, Error>)
    ensures
        final(src).buffer() == old(src).buffer(),
        final(src).remaining() == after_length(old(src).remaining()),
        match pkt_len(old(src).remaining()) {
            Ok(None) => r == Ok::<Option<usize>, Error>(None),
            Ok(Some(n)) => r == Ok::<Option<usize>, Error>(Some(n as usize)) && n < 65536,
            Err(e) => r == Err::<Option<usize>, Error>(e),
        },
{
    let buf = src.read_exact(4)?;
    let d0 = hex_digit_value(buf[0]);
    let d1 = hex_digit_value(buf[1]);
    let d2 = hex_digit_value(buf[2]);
    let d3 = hex_digit_value(buf[3]);
    match (d0, d1, d2, d3) {
        (Some(a), Some(b), Some(c), Some(d)) => {
            let len: usize = a * 4096 + b * 256 + c * 16 + d;
            if len == 0 {
                Ok(None)
            } else if len < 4 {
                Err(Error::Protocol)
            } else {
                Ok(Some(len - 4))
            }
        },
        _ => Err(Error::Protocol),
    }
}

/// `line` without one trailing newline.
pub open spec fn chomp(line: Seq<u8>) -> Seq<u8> {
    if line.len() > 0 && line.last() == 10 {
        line.drop_last()
    } else {
        line
    }
}

/// What a reader of the side-band holds: the bytes of the packfile that
/// are buffered, the number of bytes of the current packet that are still
/// in the source, and the source that has not been read.
pub struct StreamView {
    pub pending: Seq<u8>,
    pub rem: nat,
    pub src: Seq<u8>,
}

/// The start of a fetch response: the first packet must hold `packfile`,
/// with or without a newline. Returns the state in which the packets of
/// the side-band follow.
pub open spec fn open_stream(resp: Seq<u8>) -> Result<StreamView, Error> {
    match pkt_len(resp) {
        Err(e) => Err(e),
        Ok(None) => Err(Error::Protocol),
        Ok(Some(len)) => {
            let body = resp.skip(4);
            if len > BUF_SIZE {
                Err(Error::Protocol)
            } else if body.len() < len {
                Err(Error::UnexpectedEof)
            } else if chomp(body.take(len as int)) != lit("packfile") {
                Err(Error::Protocol)
            } else {
                Ok(StreamView { pending: Seq::empty(), rem: 0, src: body.skip(len as int) })
            }
        },
    }
}

/// The smaller of two numbers.
pub open spec fn min(a: int, b: int) -> int {
    if a <= b {
        a
    } else {
        b
    }
}

/// Filling the buffer if it is empty: with the next bytes of the current
/// packet, or else from the next packet, whose first byte must be the
/// channel number 1. A flush packet leaves the buffer empty: the packfile
/// has ended. A packet that holds nothing but its channel number is
/// passed over.
pub open spec fn fill(v: StreamView) -> Result<StreamView, Error>
    decreases v.src.len(),
{
    if v.pending.len() > 0 {
        Ok(v)
    } else if v.rem != 0 {
        let len = min(BUF_SIZE as int, v.rem as int);
        if v.src.len() < len {
            Err(Error::UnexpectedEof)
        } else {
            Ok(
                StreamView {
                    pending: v.src.take(len),
                    rem: (v.rem - len) as nat,
                    src: v.src.skip(len),
                },
            )
        }
    } else {
        match pkt_len(v.src) {
            Err(e) => Err(e),
            Ok(None) => Ok(StreamView { pending: Seq::empty(), rem: 0, src: v.src.skip(4) }),
            Ok(Some(line_len)) => {
                let body = v.src.skip(4);
                let use_len = min(BUF_SIZE as int, line_len as int);
                if body.len() < use_len {
                    Err(Error::UnexpectedEof)
                } else if line_len < 1 || body[0] != 1 {
                    Err(Error::Protocol)
                } else if use_len > 1 {
                    Ok(
                        StreamView {
                            pending: body.subrange(1, use_len),
                            rem: (line_len - use_len) as nat,
                            src: body.skip(use_len),
                        },
                    )
                } else {
                    fill(StreamView { pending: Seq::empty(), rem: 0, src: body.skip(1) })
                }
            },
        }
    }
}

/// All the bytes of the packfile from a state on, up to the flush packet.
pub open spec fn drain(v: StreamView) -> Result<Seq<u8>, Error>
    decreases v.src.len(), v.pending.len(),
{
    match fill(v) {
        Err(e) => Err(e),
        Ok(filled) => if filled.pending.len() == 0 {
            Ok(Seq::empty())
        } else if filled.src.len() < v.src.len() || (filled.src.len() == v.src.len()
            && v.pending.len() > 0) {
            match drain(StreamView { pending: Seq::empty(), ..filled }) {
                Err(e) => Err(e),
                Ok(rest) => Ok(filled.pending + rest),
            }
        } else {
            Err(Error::Protocol)
        },
    }
}

/// Where a fill that fails leaves the reader: behind the length and the
/// bytes of the packet that it has read, with its buffer empty as it was.
/// The length of the packet that cannot be read is behind it, unless
/// fewer than four bytes were left; so is what was read of a packet with
/// no or another channel number than 1.
pub open spec fn fill_stop(v: StreamView) -> StreamView
    decreases v.src.len(),
{
    if v.pending.len() > 0 || v.rem != 0 {
        v
    } else {
        match pkt_len(v.src) {
            Err(_) => StreamView { src: after_length(v.src), ..v },
            Ok(None) => v,
            Ok(Some(line_len)) => {
                let body = v.src.skip(4);
                let use_len = min(BUF_SIZE as int, line_len as int);
                if body.len() < use_len {
                    StreamView { src: body, ..v }
                } else if line_len < 1 || body[0] != 1 {
                    StreamView { src: body.skip(use_len), ..v }
                } else if use_len > 1 {
                    v
                } else {
                    fill_stop(StreamView { pending: Seq::empty(), rem: 0, src: body.skip(1) })
                }
            },
        }
    }
}

/// Where reading to the end leaves the reader: behind the flush packet,
/// or where the fill that fails leaves it.
pub open spec fn drain_stop(v: StreamView) -> StreamView
    decreases v.src.len(), v.pending.len(),
{
    match fill(v) {
        Err(_) => fill_stop(v),
        Ok(filled) => if filled.pending.len() == 0 {
            filled
        } else if filled.src.len() < v.src.len() || (filled.src.len() == v.src.len()
            && v.pending.len() > 0) {
            drain_stop(StreamView { pending: Seq::empty(), ..filled })
        } else {
            v
        },
    }
}

/// Filling a buffer never grows the source, and shrinks it where the
/// buffer was empty and is not any more.
pub proof fn lemma_fill(v: StreamView)
    ensures
        fill(v) matches Ok(filled) ==> filled.src.len() <= v.src.len() && (v.pending.len() > 0
            ==> filled == v) && (v.pending.len() == 0 && filled.pending.len() > 0
            ==> filled.src.len() < v.src.len()),
    decreases v.src.len(),
{
    if v.pending.len() == 0 && v.rem == 0 {
        match pkt_len(v.src) {
            Ok(Some(line_len)) => {
                let body = v.src.skip(4);
                let use_len = min(BUF_SIZE as int, line_len as int);
                if body.len() >= use_len && line_len >= 1 && body[0] == 1 && use_len <= 1 {
                    lemma_fill(StreamView { pending: Seq::empty(), rem: 0, src: body.skip(1) });
                }
            },
            _ => {},
        }
    }
}

/// Filter wrapping the response to a fetch request and returning the
/// bytes of the packfile.
///
/// The response to the fetch request is in pkt-line format, with the
/// first line indicating a packfile, and the following lines divided into
/// multiple streams: channel 1 is the packfile; channel 2 would be
/// progress information; channel 3 is for errors.
///
/// The request is assumed to have asked for no progress, so only channel 1
/// is read and everything else is an error.
pub struct PackFileReader {
    /// Internal buffer.
    buf: Vec<u8>,
    /// Position of the next byte to return in the buffer.
    pos: usize,
    /// Remaining bytes in the current pkt-line.
    rem: usize,
    /// Internal reader.
    src: Cursor,
}

impl View for PackFileReader {
    type V = StreamView;

    closed spec fn view(&self) -> StreamView {
        StreamView {
            pending: self.buf@.skip(self.pos as int),
            rem: self.rem as nat,
            src: self.src.remaining(),
        }
    }
}

impl PackFileReader {
    /// The position in the internal buffer lies within it.
    pub closed spec fn wf(self) -> bool {
        self.pos <= self.buf@.len()
    }

    /// Creates a packfile reader from the response to a fetch request.
    pub fn new(resp: Vec<u8>) -> (r: Result<PackFileReader, Error>)
        ensures
            match open_stream(resp@) {
                Ok(v) => r matches Ok(p) && p@ == v && p.wf(),
                Err(e) => r matches Err(f) && f == e,
            },
    {
        let mut src = Cursor::new(resp);
        let len = match read_pkt_line_len(&mut src)? {
            Some(len) => len,
            None => {
                return Err(Error::Protocol);
            },
        };
        // Check the first line: "packfile" or "packfile\n" is expected.
        if len > BUF_SIZE {
            return Err(Error::Protocol);
        }
        let line = src.read_exact(len)?;
        let end: usize = if len > 0 && line[len - 1] == 10 {
            len - 1
        } else {
            len
        };
        let word = vstd::slice::slice_subrange(line.as_slice(), 0, end);
        assert(word@ =~= chomp(line@));
        if !equal_str(word, "packfile") {
            return Err(Error::Protocol);
        }
        let p = PackFileReader { buf: Vec::new(), pos: 0, rem: 0, src };
        assert(p@.pending =~= Seq::<u8>::empty());
        Ok(p)
    }

    /// Fills the internal buffer from the source if it is empty, and
    /// returns the number of bytes that it holds: none at the end of the
    /// packfile.
    pub fn fill_buf(&mut self) -> (r: Result<usize, Error>)
        requires
            old(self).wf(),
        ensures
            final(self).wf(),
            match fill(old(self)@) {
                Ok(v) => r matches Ok(n) && n == v.pending.len() && final(self)@ == v,
                Err(e) => r matches Err(f) && f == e && final(self)@ == fill_stop(old(self)@),
            },
    {
        if self.pos < self.buf.len() {
            assert(self@.pending.len() == self.buf@.len() - self.pos);
            return Ok(self.buf.len() - self.pos);
        }
        assert(self@.pending.len() == 0);
        if self.rem != 0 {
            // Read next bytes from the current pkt-line.
            let len: usize = if BUF_SIZE <= self.rem {
                BUF_SIZE
            } else {
                self.rem
            };
            let chunk = self.src.read_exact(len)?;
            self.buf = chunk;
            self.pos = 0;
            self.rem = self.rem - len;
            assert(self@.pending =~= old(self)@.src.take(len as int));
            return Ok(len);
        }
        // A loop is needed in case a pkt-line holds only its channel.
        loop
            invariant
                self.wf(),
                self@.pending.len() == 0,
                self@.rem == 0,
                fill(old(self)@) == fill(self@),
                fill_stop(old(self)@) == fill_stop(self@),
            decreases self.src.remaining().len(),
        {
            let ghost v0 = self@;
            // Start a new pkt-line.
            let line_len = match read_pkt_line_len(&mut self.src) {
                Ok(Some(n)) => n,
                Ok(None) => {
                    // Flush means the end, signalled with an empty buffer.
                    self.buf = Vec::new();
                    self.pos = 0;
                    assert(self@.pending =~= Seq::<u8>::empty());
                    return Ok(0);
                },
                Err(e) => {
                    return Err(e);
                },
            };
            let use_len: usize = if BUF_SIZE <= line_len {
                BUF_SIZE
            } else {
                line_len
            };
            let chunk = match self.src.read_exact(use_len) {
                Ok(c) => c,
                Err(e) => {
                    return Err(e);
                },
            };
            // Only data from channel 1 is expected.
            assert(line_len >= 1 ==> chunk@[0] == v0.src.skip(4)[0]);
            if line_len < 1 || chunk[0] != 1 {
                assert(fill(v0) == Err::<StreamView, Error>(Error::Protocol));
                return Err(Error::Protocol);
            }
            self.buf = chunk;
            self.pos = 1;
            self.rem = line_len - use_len;
            assert(self@.pending =~= v0.src.skip(4).subrange(1, use_len as int));
            if use_len > 1 {
                return Ok(use_len - 1);
            }
            assert(self@.pending =~= Seq::<u8>::empty());
            assert(self@ == (StreamView {
                pending: Seq::empty(),
                rem: 0,
                src: v0.src.skip(4).skip(1),
            }));
        }
    }

    /// The bytes that the internal buffer holds.
    pub fn buffer(&self) -> (r: &[u8])
        requires
            self.wf(),
        ensures
            r@ == self@.pending,
    {
        vstd::slice::slice_subrange(self.buf.as_slice(), self.pos, self.buf.len())
    }

    /// Tells this reader that `amt` bytes have been consumed from the
    /// buffer, so they should no longer be returned.
    pub fn consume(&mut self, amt: usize)
        requires
            old(self).wf(),
            amt <= old(self)@.pending.len(),
        ensures
            final(self).wf(),
            final(self)@ == (StreamView {
                pending: old(self)@.pending.skip(amt as int),
                ..old(self)@
            }),
    {
        assert(self@.pending.len() == self.buf@.len() - self.pos);
        assert(self.buf@.len() == self.buf.len());
        self.pos = self.pos + amt;
        assert(final(self)@.pending =~= old(self)@.pending.skip(amt as int));
    }

    /// Pulls at most `n` bytes of the packfile.
    pub fn read(&mut self, n: usize) -> (r: Result<Vec<u8>, Error>)
        requires
            old(self).wf(),
        ensures
            final(self).wf(),
            match fill(old(self)@) {
                Ok(v) => r matches Ok(bytes) && bytes@ == v.pending.take(
                    min(n as int, v.pending.len() as int),
                ) && final(self)@ == (StreamView {
                    pending: v.pending.skip(min(n as int, v.pending.len() as int)),
                    ..v
                }),
                Err(e) => r matches Err(f) && f == e && final(self)@ == fill_stop(old(self)@),
            },
    {
        let available = self.fill_buf()?;
        let len: usize = if n <= available {
            n
        } else {
            available
        };
        let data = self.buffer();
        let out = slice_to_vec(data, 0, len);
        self.consume(len);
        Ok(out)
    }

    /// Pulls all the bytes of the packfile that are left.
    pub fn read_to_end(&mut self) -> (r: Result<Vec<u8>, Error>)
        requires
            old(self).wf(),
        ensures
            final(self).wf(),
            final(self)@ == drain_stop(old(self)@),
            match drain(old(self)@) {
                Ok(bytes) => r matches Ok(v) && v@ == bytes,
                Err(e) => r matches Err(f) && f == e,
            },
    {
        let mut out: Vec<u8> = Vec::new();
        loop
            invariant
                self.wf(),
                drain_stop(old(self)@) == drain_stop(self@),
                match drain(self@) {
                    Ok(rest) => drain(old(self)@) == Ok::<Seq<u8>, Error>(out@ + rest),
                    Err(e) => drain(old(self)@) == Err::<Seq<u8>, Error>(e),
                },
            decreases self@.src.len(), self@.pending.len(),
        {
            let ghost before = self@;
            proof {
                lemma_fill(before);
            }
            let available = self.fill_buf()?;
            if available == 0 {
                assert(out@ + Seq::<u8>::empty() =~= out@);
                return Ok(out);
            }
            let ghost filled = self@;
            let ghost prev = out@;
            append(&mut out, self.buffer());
            self.consume(available);
            proof {
                assert(self@.pending =~= Seq::<u8>::empty());
                assert(self@ == (StreamView { pending: Seq::empty(), ..filled }));
                let rest = drain(self@);
                if rest is Ok {
                    assert((prev + filled.pending) + rest->Ok_0 =~= prev + (filled.pending
                        + rest->Ok_0));
                }
            }
        }
    }
}

/// The body of the request that lists the remote HEAD with the branch it
/// points at.
pub fn ls_refs_request() -> (r: &'static str)
    ensures
        r@ == "0013command=ls-refs0001000bsymrefs0013ref-prefix HEAD0000"@,
{
    "0013command=ls-refs0001000bsymrefs0013ref-prefix HEAD0000"
}

/// The body of the request that fetches the commit `head` and all that
/// it reaches, without progress information.
pub open spec fn fetch_body(head: Seq<u8>) -> Seq<u8> {
    lit("0011command=fetch0001000fno-progress0031want ") + head + lit("0000")
}

/// The body of the request that fetches the commit `head`.
pub fn fetch_request(head: &str) -> (r: Vec<u8>)
    ensures
        r@ == fetch_body(lit(head)),
{
    let mut body: Vec<u8> = Vec::new();
    append_str(&mut body, "0011command=fetch0001000fno-progress0031want ");
    append_str(&mut body, head);
    append_str(&mut body, "0000");
    body
}

/// `s` without its trailing bytes `b`.
pub open spec fn trim_end(s: Seq<u8>, b: u8) -> Seq<u8>
    decreases s.len(),
{
    if s.len() > 0 && s.last() == b {
        trim_end(s.drop_last(), b)
    } else {
        s
    }
}

/// The length of `s` without its trailing bytes `b`.
pub fn trimmed_len(s: &[u8], b: u8) -> (n: usize)
    ensures
        n <= s.len(),
        s@.take(n as int) == trim_end(s@, b),
{
    let mut n: usize = s.len();
    assert(s@.take(n as int) =~= s@);
    while n > 0 && s[n - 1] == b
        invariant
            n <= s.len(),
            trim_end(s@, b) == trim_end(s@.take(n as int), b),
        decreases n,
    {
        assert(s@.take(n as int).drop_last() =~= s@.take(n - 1));
        n = n - 1;
    }
    assert(n > 0 ==> s@.take(n as int).last() == s@[n - 1]);
    n
}

/// The address of the upload-pack service of a repository: the address of
/// the repository without trailing slashes, then `/git-upload-pack`.
pub open spec fn upload_pack_url(repo_url: Seq<u8>) -> Seq<u8> {
    trim_end(repo_url, 47) + lit("/git-upload-pack")
}

/// The address that the requests of protocol v2 are posted to.
pub fn request_url(repo_url: &str) -> (r: Vec<u8>)
    ensures
        r@ == upload_pack_url(lit(repo_url)),
{
    let bytes = repo_url.as_bytes();
    let n = trimmed_len(bytes, 47u8);
    let mut url = slice_to_vec(bytes, 0, n);
    assert(url@ =~= bytes@.take(n as int));
    append_str(&mut url, "/git-upload-pack");
    url
}

/// A request to the upload-pack service: where it goes, the header that
/// it carries, and its body.
#[derive(Clone, Debug, PartialEq, Eq)]
pub struct Request {
    pub url: Vec<u8>,
    pub header_name: &'static str,
    pub header_value: &'static str,
    pub body: Vec<u8>,
}

/// Makes a request to the git-upload-pack service of protocol v2: a post
/// of `body` to the address of the service, with the header that asks for
/// version 2.
pub fn request_upload_pack_v2(repo_url: &str, body: &[u8]) -> (r: Request)
    ensures
        r.url@ == upload_pack_url(lit(repo_url)),
        r.header_name@ == "git-protocol"@,
        r.header_value@ == "version=2"@,
        r.body@ == body@,
{
    let copy = slice_to_vec(body, 0, body.len());
    assert(copy@ =~= body@);
    Request {
        url: request_url(repo_url),
        header_name: PROTOCOL_HEADER,
        header_value: PROTOCOL_VERSION,
        body: copy,
    }
}

/// What stands between the name of the commit and the name of the branch
/// in the answer to a request for the remote HEAD.
pub open spec fn head_middle() -> Seq<u8> {
    lit(" HEAD symref-target:refs/heads/")
}

/// The first line of the answer to a request for the remote HEAD, without
/// its trailing newlines.
pub open spec fn first_line(resp: Seq<u8>) -> Result<Seq<u8>, Error> {
    match pkt_len(resp) {
        Err(e) => Err(e),
        Ok(None) => Err(Error::Protocol),
        Ok(Some(len)) => if resp.len() - 4 < len {
            Err(Error::UnexpectedEof)
        } else if !valid_utf8(resp.subrange(4, 4 + len as int)) {
            Err(Error::Protocol)
        } else {
            Ok(trim_end(resp.subrange(4, 4 + len as int), 10))
        },
    }
}

/// The name of the commit and the name of the branch in a line
/// `<40 characters> HEAD symref-target:refs/heads/<branch>`.
pub open spec fn split_head_line(line: Seq<u8>) -> Result<(Seq<u8>, Seq<u8>), Error> {
    if line.len() < 71 || line.subrange(40, 71) != head_middle() {
        Err(Error::Unsupported)
    } else if !valid_utf8(line.take(40)) || !valid_utf8(line.skip(71)) {
        Err(Error::Protocol)
    } else {
        Ok((line.take(40), line.skip(71)))
    }
}

/// Reads the answer to a request for the remote HEAD and returns the name
/// of the commit that it points at and the name of the default branch.
/// Only the first line of the answer is read.
pub fn ls_remote_head(response: Vec<u8>) -> (r: Result<(String, String), Error>)
    ensures
        match first_line(response@) {
            Err(e) => r matches Err(f) && f == e,
            Ok(line) => match split_head_line(line) {
                Err(e) => r matches Err(f) && f == e,
                Ok((hash, name)) => r matches Ok((h, n)) && encode_utf8(h@) == hash && encode_utf8(
                    n@,
                ) == name,
            },
        },
{
    let mut cursor = Cursor::new(response);
    let len = match read_pkt_line_len(&mut cursor)? {
        Some(len) => len,
        None => {
            return Err(Error::Protocol);
        },
    };
    let line = cursor.read_exact(len)?;
    assert(line@ =~= response@.subrange(4, 4 + len));
    let copy = slice_to_vec(line.as_slice(), 0, line.len());
    assert(copy@ =~= line@);
    if string_from_utf8(copy).is_none() {
        return Err(Error::Protocol);
    }
    let n = trimmed_len(line.as_slice(), 10u8);
    let ghost trimmed = line@.take(n as int);
    // <40-char hash> HEAD symref-target:refs/heads/<name>
    if n < 71 {
        return Err(Error::Unsupported);
    }
    let middle = vstd::slice::slice_subrange(line.as_slice(), 40, 71);
    assert(middle@ =~= trimmed.subrange(40, 71));
    if !equal_str(middle, " HEAD symref-target:refs/heads/") {
        return Err(Error::Unsupported);
    }
    let hash_bytes = slice_to_vec(line.as_slice(), 0, 40);
    assert(hash_bytes@ =~= trimmed.take(40));
    let name_bytes = slice_to_vec(line.as_slice(), 71, n);
    assert(name_bytes@ =~= trimmed.skip(71));
    match (string_from_utf8(hash_bytes), string_from_utf8(name_bytes)) {
        (Some(hash), Some(name)) => Ok((hash, name)),
        _ => Err(Error::Protocol),
    }
}

/// Reads the start of the answer to a fetch request and returns a reader
/// for the packfile data.
pub fn get_pack(response: Vec<u8>) -> (r: Result<PackFileReader, Error>)
    ensures
        match open_stream(response@) {
            Ok(v) => r matches Ok(p) && p@ == v && p.wf(),
            Err(e) => r matches Err(f) && f == e,
        },
{
    PackFileReader::new(response)
}

} // verus!
