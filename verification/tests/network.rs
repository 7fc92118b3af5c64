use std::io::Write;

use sha1::Digest;

use minigit::commands::{ls_remote, ls_remote_request, unpack_objects};
use minigit::cursor::Cursor;
use minigit::error::{Error, ErrorKind};
use minigit::network::{
    fetch_request, get_pack, ls_refs_request, ls_remote_head, read_pkt_line_len, request_url,
    trimmed_len, PackFileReader, BUF_SIZE,
};
use minigit::store::ObjectStore;

fn pkt(payload: &[u8]) -> Vec<u8> {
    let mut out = format!("{:04x}", payload.len() + 4).into_bytes();
    out.extend_from_slice(payload);
    out
}

fn band(channel: u8, data: &[u8]) -> Vec<u8> {
    pkt(&[&[channel][..], data].concat())
}

fn response(parts: &[Vec<u8>]) -> Vec<u8> {
    let mut out = pkt(b"packfile\n");
    for part in parts {
        out.extend_from_slice(part);
    }
    out.extend_from_slice(b"0000");
    out
}

fn drain(resp: Vec<u8>) -> Result<Vec<u8>, Error> {
    get_pack(resp)?.read_to_end()
}

const HEAD: &str = "8c7e5a667f1b771847fe88c01c3de34413a1b220";

#[test]
fn length_of_a_packet_line() {
    let len = |bytes: &[u8]| read_pkt_line_len(&mut Cursor::new(bytes.to_vec()));
    assert_eq!(len(b"0000"), Ok(None));
    assert_eq!(len(b"0004"), Ok(Some(0)));
    assert_eq!(len(b"0005x"), Ok(Some(1)));
    assert_eq!(len(b"000dpackfile\n"), Ok(Some(9)));
    assert_eq!(len(b"ffff"), Ok(Some(65531)));
    assert_eq!(len(b"FfFf"), Ok(Some(65531)));
    assert_eq!(len(b"0013command=ls-refs"), Ok(Some(15)));
}

#[test]
fn bad_packet_line_lengths() {
    let len = |bytes: &[u8]| read_pkt_line_len(&mut Cursor::new(bytes.to_vec()));
    assert_eq!(len(b"0001"), Err(Error::Protocol));
    assert_eq!(len(b"0002"), Err(Error::Protocol));
    assert_eq!(len(b"0003"), Err(Error::Protocol));
    assert_eq!(len(b"00g0"), Err(Error::Protocol));
    assert_eq!(len(b"+013"), Err(Error::Protocol));
    assert_eq!(len(b" 013"), Err(Error::Protocol));
    assert_eq!(len(&[0xff, 0xfe, b'0', b'0']), Err(Error::Protocol));
    assert_eq!(len(b"000"), Err(Error::UnexpectedEof));
    assert_eq!(len(b""), Err(Error::UnexpectedEof));
}

#[test]
fn four_bytes_are_read_whether_they_are_a_length_or_not() {
    for (bytes, result) in [
        (&b"0009rest!"[..], Ok(Some(5))),
        (b"0000rest!", Ok(None)),
        (b"0004rest!", Ok(Some(0))),
        (b"0003rest!", Err(Error::Protocol)),
        (b"00zzrest!", Err(Error::Protocol)),
    ] {
        let mut cursor = Cursor::new(bytes.to_vec());
        assert_eq!(read_pkt_line_len(&mut cursor), result);
        assert_eq!(cursor.position(), 4);
        assert_eq!(cursor.remaining_bytes(), b"rest!".to_vec());
    }
    let mut short = Cursor::new(b"xx000".to_vec());
    short.advance(2);
    assert_eq!(read_pkt_line_len(&mut short), Err(Error::UnexpectedEof));
    assert_eq!(short.position(), 2);
}

#[test]
fn length_is_read_and_nothing_more() {
    let mut cursor = Cursor::new(b"0006ab0000".to_vec());
    assert_eq!(read_pkt_line_len(&mut cursor), Ok(Some(2)));
    assert_eq!(cursor.read_exact(2), Ok(b"ab".to_vec()));
    assert_eq!(read_pkt_line_len(&mut cursor), Ok(None));
    assert_eq!(cursor.remaining_len(), 0);
}

#[test]
fn packfile_from_channel_one() {
    let resp = response(&[band(1, b"PACK"), band(1, b""), band(1, b"-rest")]);
    assert_eq!(drain(resp), Ok(b"PACK-rest".to_vec()));
    assert_eq!(drain(response(&[])), Ok(Vec::new()));
}

#[test]
fn first_line_may_lack_the_newline() {
    let mut resp = pkt(b"packfile");
    resp.extend_from_slice(&band(1, b"x"));
    resp.extend_from_slice(b"0000");
    assert_eq!(drain(resp), Ok(b"x".to_vec()));
}

#[test]
fn first_line_must_announce_a_packfile() {
    for first in [&b"packfile\n\n"[..], b"packfiles", b"", b"\n", b"acknowledgments\n", b"Packfile"] {
        let mut resp = pkt(first);
        resp.extend_from_slice(b"0000");
        assert!(matches!(get_pack(resp), Err(Error::Protocol)));
    }
    assert!(matches!(get_pack(b"0000".to_vec()), Err(Error::Protocol)));
    assert!(matches!(get_pack(pkt(&vec![b'p'; BUF_SIZE + 1])), Err(Error::Protocol)));
    assert!(matches!(get_pack(b"000dpack".to_vec()), Err(Error::UnexpectedEof)));
    assert!(matches!(get_pack(b"00".to_vec()), Err(Error::UnexpectedEof)));
}

#[test]
fn other_channels_are_errors() {
    assert_eq!(drain(response(&[band(1, b"ab"), band(2, b"progress")])), Err(Error::Protocol));
    assert_eq!(drain(response(&[band(3, b"fatal")])), Err(Error::Protocol));
    assert_eq!(drain(response(&[band(0, b"x")])), Err(Error::Protocol));
    assert_eq!(drain(response(&[pkt(b"")])), Err(Error::Protocol));
}

#[test]
fn response_that_ends_without_a_flush() {
    let mut resp = pkt(b"packfile\n");
    resp.extend_from_slice(&band(1, b"abc"));
    assert_eq!(drain(resp.clone()), Err(Error::UnexpectedEof));
    resp.extend_from_slice(b"0009\x01ab");
    assert_eq!(drain(resp), Err(Error::UnexpectedEof));
}

#[test]
fn what_follows_the_flush_is_not_read() {
    let mut resp = response(&[band(1, b"abc")]);
    resp.extend_from_slice(b"garbage");
    assert_eq!(drain(resp), Ok(b"abc".to_vec()));
}

#[test]
fn long_packet_comes_in_several_fills() {
    let data: Vec<u8> = (0..20_000u32).map(|i| (i % 253) as u8).collect();
    let resp = response(&[band(1, &data), band(1, b"tail")]);
    let mut reader = PackFileReader::new(resp.clone()).unwrap();
    assert_eq!(reader.fill_buf(), Ok(BUF_SIZE - 1));
    assert_eq!(reader.buffer(), &data[..BUF_SIZE - 1]);
    assert_eq!(reader.fill_buf(), Ok(BUF_SIZE - 1));
    reader.consume(BUF_SIZE - 1);
    assert_eq!(reader.fill_buf(), Ok(BUF_SIZE));
    assert_eq!(reader.read(10), Ok(data[BUF_SIZE - 1..BUF_SIZE + 9].to_vec()));
    reader.consume(BUF_SIZE - 10);
    assert_eq!(reader.fill_buf(), Ok(20_000 - 2 * BUF_SIZE + 1));
    let mut all = data.clone();
    all.extend_from_slice(b"tail");
    assert_eq!(drain(resp), Ok(all));
}

#[test]
fn reads_stop_at_the_end_of_the_buffer() {
    let mut reader = get_pack(response(&[band(1, b"abc"), band(1, b"de")])).unwrap();
    assert_eq!(reader.read(2), Ok(b"ab".to_vec()));
    assert_eq!(reader.read(2), Ok(b"c".to_vec()));
    assert_eq!(reader.read(0), Ok(Vec::new()));
    assert_eq!(reader.read(9), Ok(b"de".to_vec()));
    assert_eq!(reader.read(9), Ok(Vec::new()));
    assert_eq!(reader.fill_buf(), Err(Error::UnexpectedEof));
}

#[test]
fn fetched_pack_is_unpacked() {
    let mut entry = vec![0x31];
    let mut encoder = flate2::write::ZlibEncoder::new(Vec::new(), flate2::Compression::default());
    encoder.write_all(b"A").unwrap();
    entry.extend_from_slice(&encoder.finish().unwrap());
    let mut pack = b"PACK\0\0\0\x02\0\0\0\x01".to_vec();
    pack.extend_from_slice(&entry);
    let digest = sha1::Sha1::digest(&pack);
    pack.extend_from_slice(&digest);
    let resp = response(&[band(1, &pack[..7]), band(1, &pack[7..])]);
    let bytes = drain(resp).unwrap();
    let mut store = ObjectStore::new();
    assert_eq!(unpack_objects(bytes, &mut store), Ok(b"Unpacked 1 objects\n".to_vec()));
    assert_eq!(store.slot(0).name, HEAD.as_bytes().to_vec());
}

#[test]
fn head_of_the_remote() {
    let line = format!("{} HEAD symref-target:refs/heads/main\n", HEAD);
    let mut resp = pkt(line.as_bytes());
    resp.extend_from_slice(&pkt(b"ignored"));
    resp.extend_from_slice(b"0000");
    assert_eq!(ls_remote_head(resp.clone()), Ok((HEAD.to_string(), "main".to_string())));
    assert_eq!(ls_remote("HEAD", resp), Ok(format!("{}\tHEAD\n", HEAD).into_bytes()));
}

#[test]
fn branch_names_and_trailing_newlines() {
    let head = |line: &str| ls_remote_head(pkt(line.as_bytes()));
    let start = format!("{} HEAD symref-target:refs/heads/", HEAD);
    assert_eq!(head(&format!("{}feature/x y", start)), Ok((HEAD.to_string(), "feature/x y".to_string())));
    assert_eq!(head(&format!("{}dev\n\n\n", start)), Ok((HEAD.to_string(), "dev".to_string())));
    assert_eq!(head(&format!("{}\n", start)), Ok((HEAD.to_string(), String::new())));
    assert_eq!(head(&format!("{}gr\u{fc}n", start)), Ok((HEAD.to_string(), "gr\u{fc}n".to_string())));
    let other = format!("{} HEAD symref-target:refs/heads/m", "z".repeat(40));
    assert_eq!(head(&other), Ok(("z".repeat(40), "m".to_string())));
}

#[test]
fn answers_of_another_shape_are_unsupported() {
    let head = |line: &str| ls_remote_head(pkt(line.as_bytes()));
    assert_eq!(head(&format!("{} HEAD\n", HEAD)), Err(Error::Unsupported));
    assert_eq!(head(&format!("{} refs/heads/main symref-target:HEAD\n", HEAD)), Err(Error::Unsupported));
    assert_eq!(head(&format!("{} HEAD  symref-target:refs/heads/main\n", &HEAD[1..])), Err(Error::Unsupported));
    assert_eq!(head(""), Err(Error::Unsupported));
    assert_eq!(head(&format!("{} HEAD symref-target:refs/heads", HEAD)), Err(Error::Unsupported));
    assert_eq!(Error::Unsupported.kind(), ErrorKind::Unsupported);
}

#[test]
fn broken_answers_to_the_listing() {
    assert_eq!(ls_remote_head(b"0000".to_vec()), Err(Error::Protocol));
    assert_eq!(ls_remote_head(b"0003".to_vec()), Err(Error::Protocol));
    assert_eq!(ls_remote_head(b"0010short".to_vec()), Err(Error::UnexpectedEof));
    assert_eq!(ls_remote_head(Vec::new()), Err(Error::UnexpectedEof));
    let mut invalid = format!("{} HEAD symref-target:refs/heads/", HEAD).into_bytes();
    invalid.push(0xff);
    assert_eq!(ls_remote_head(pkt(&invalid)), Err(Error::Protocol));
}

#[test]
fn only_head_can_be_listed() {
    assert_eq!(ls_remote_request("HEAD"), Ok(ls_refs_request()));
    assert_eq!(ls_remote_request("main"), Err(Error::Unsupported));
    assert_eq!(ls_remote_request("head"), Err(Error::Unsupported));
    assert_eq!(ls_remote_request(""), Err(Error::Unsupported));
    let line = format!("{} HEAD symref-target:refs/heads/main\n", HEAD);
    assert_eq!(ls_remote("refs/heads/*", pkt(line.as_bytes())), Err(Error::Unsupported));
}

#[test]
fn request_bodies() {
    assert_eq!(ls_refs_request(), "0013command=ls-refs0001000bsymrefs0013ref-prefix HEAD0000");
    assert_eq!(
        fetch_request(HEAD),
        format!("0011command=fetch0001000fno-progress0031want {}0000", HEAD).into_bytes()
    );
    let lines = ["command=fetch", "no-progress", &format!("want {}", HEAD)];
    let mut built = pkt(lines[0].as_bytes());
    built.extend_from_slice(b"0001");
    built.extend_from_slice(&pkt(lines[1].as_bytes()));
    built.extend_from_slice(&pkt(lines[2].as_bytes()));
    built.extend_from_slice(b"0000");
    assert_eq!(fetch_request(HEAD), built);
}

#[test]
fn request_to_the_service() {
    let request = minigit::network::request_upload_pack_v2("http://host/repo/", b"0000");
    assert_eq!(request.url, b"http://host/repo/git-upload-pack".to_vec());
    assert_eq!(request.header_name, "git-protocol");
    assert_eq!(request.header_value, "version=2");
    assert_eq!(request.body, b"0000".to_vec());
}

#[test]
fn address_of_the_service() {
    assert_eq!(request_url("http://host/repo.git"), b"http://host/repo.git/git-upload-pack".to_vec());
    assert_eq!(request_url("http://host/repo///"), b"http://host/repo/git-upload-pack".to_vec());
    assert_eq!(request_url(""), b"/git-upload-pack".to_vec());
    assert_eq!(request_url("///"), b"/git-upload-pack".to_vec());
    assert_eq!(trimmed_len(b"abc//", b'/'), 3);
    assert_eq!(trimmed_len(b"//", b'/'), 0);
    assert_eq!(trimmed_len(b"a/b", b'/'), 3);
}

#[test]
fn failed_fill_leaves_the_reader_behind_what_it_read() {
    let mut resp = pkt(b"packfile\n");
    resp.extend_from_slice(&band(1, b"ab"));
    resp.extend_from_slice(&band(1, b""));
    resp.extend_from_slice(&band(2, b"progress"));
    resp.extend_from_slice(&band(1, b"cd"));
    resp.extend_from_slice(b"0003");
    resp.extend_from_slice(&band(1, b"ef"));
    resp.extend_from_slice(b"0000");
    let mut reader = get_pack(resp).unwrap();
    assert_eq!(reader.fill_buf(), Ok(2));
    assert_eq!(reader.buffer(), b"ab");
    reader.consume(2);
    assert_eq!(reader.fill_buf(), Err(Error::Protocol));
    assert_eq!(reader.buffer(), b"");
    assert_eq!(reader.read(4), Ok(b"cd".to_vec()));
    assert_eq!(reader.read(4), Err(Error::Protocol));
    assert_eq!(reader.read_to_end(), Ok(b"ef".to_vec()));
    assert_eq!(reader.fill_buf(), Err(Error::UnexpectedEof));
    assert_eq!(reader.fill_buf(), Err(Error::UnexpectedEof));
}
