use std::io::Write;

use sha1::Digest;

use minigit::clone::{clone, CloneAction, CloneEvent, CloneState};
use minigit::commands::git_init;
use minigit::error::Error;
use minigit::network::{fetch_request, ls_refs_request};
use minigit::store::ObjectStore;
use minigit::worktree::{WorkEntry, WorkNode};

fn pkt(payload: &[u8]) -> Vec<u8> {
    let mut out = format!("{:04x}", payload.len() + 4).into_bytes();
    out.extend_from_slice(payload);
    out
}

fn band(channel: u8, data: &[u8]) -> Vec<u8> {
    pkt(&[&[channel][..], data].concat())
}

fn fetch_answer(parts: &[Vec<u8>]) -> Vec<u8> {
    let mut out = pkt(b"packfile\n");
    for part in parts {
        out.extend_from_slice(part);
    }
    out.extend_from_slice(b"0000");
    out
}

fn pack_with(entries: &[(u8, &[u8])]) -> Vec<u8> {
    let mut pack = b"PACK\0\0\0\x02".to_vec();
    pack.extend_from_slice(&(entries.len() as u32).to_be_bytes());
    for (type_id, payload) in entries {
        let mut size = payload.len();
        let mut first = (type_id << 4) | (size & 0x0f) as u8;
        size >>= 4;
        while size != 0 {
            pack.push(first | 0x80);
            first = (size & 0x7f) as u8;
            size >>= 7;
        }
        pack.push(first);
        let mut encoder =
            flate2::write::ZlibEncoder::new(Vec::new(), flate2::Compression::default());
        encoder.write_all(payload).unwrap();
        pack.extend_from_slice(&encoder.finish().unwrap());
    }
    let digest = sha1::Sha1::digest(&pack);
    pack.extend_from_slice(&digest);
    pack
}

const BLOB_A: &str = "8c7e5a667f1b771847fe88c01c3de34413a1b220";

#[test]
fn clone_step_by_step() {
    let mut store = ObjectStore::new();
    let begin =
        CloneEvent::Begin { repo_url: "http://host/path/repo.git/".to_string(), directory: None };
    let (state, action) = clone(CloneState::Start, begin, &mut store).unwrap();
    assert_eq!(state, CloneState::Creating);
    assert_eq!(action, CloneAction::Init { directory: b"repo".to_vec(), layout: git_init(b"repo") });

    let (state, action) = clone(state, CloneEvent::Done, &mut store).unwrap();
    assert_eq!(state, CloneState::Listing);
    assert_eq!(action, CloneAction::Post { body: ls_refs_request().as_bytes().to_vec() });

    let mut tree = b"100644 f\0".to_vec();
    tree.extend_from_slice(&hex::decode(BLOB_A).unwrap());
    let tree_name = hex::encode(sha1::Sha1::digest([&b"tree 29\0"[..], &tree].concat()));
    let commit = format!("tree {}\n", tree_name);
    let commit_name =
        hex::encode(sha1::Sha1::digest(format!("commit {}\0{}", commit.len(), commit)));

    let line = format!("{} HEAD symref-target:refs/heads/trunk\n", commit_name);
    let answer = CloneEvent::Answer { body: pkt(line.as_bytes()) };
    let (state, action) = clone(state, answer, &mut store).unwrap();
    assert_eq!(
        state,
        CloneState::Fetching { head: commit_name.clone(), branch: "trunk".to_string() }
    );
    assert_eq!(action, CloneAction::Post { body: fetch_request(&commit_name) });

    let pack = pack_with(&[(1, commit.as_bytes()), (2, &tree[..]), (3, &b"A"[..])]);
    let body = fetch_answer(&[band(1, &pack[..20]), band(1, &pack[20..])]);
    let (state, action) = clone(state, CloneEvent::Answer { body }, &mut store).unwrap();
    assert_eq!(state, CloneState::Installing { head: commit_name.clone() });
    assert_eq!(
        action,
        CloneAction::Install {
            message: b"Unpacked 3 objects\n".to_vec(),
            head: b"ref: refs/heads/trunk\n".to_vec(),
            reference_path: b"refs/heads/trunk".to_vec(),
            reference: format!("{}\n", commit_name).into_bytes(),
        }
    );
    assert_eq!(store.len(), 3);

    let (state, action) = clone(state, CloneEvent::Done, &mut store).unwrap();
    assert_eq!(state, CloneState::CheckingOut);
    assert_eq!(
        action,
        CloneAction::CheckOut {
            entries: vec![WorkEntry {
                name: b"f".to_vec(),
                node: WorkNode::File { executable: false, content: b"A".to_vec() },
            }],
        }
    );

    let (state, action) = clone(state, CloneEvent::Done, &mut store).unwrap();
    assert_eq!((state, action), (CloneState::Finished, CloneAction::Finish));
    assert_eq!(clone(CloneState::Finished, CloneEvent::Done, &mut store), Err(Error::Protocol));
}

#[test]
fn clone_into_a_given_directory() {
    let mut store = ObjectStore::new();
    let begin = CloneEvent::Begin {
        repo_url: "http://host/repo".to_string(),
        directory: Some(b"/tmp/here".to_vec()),
    };
    let (_, action) = clone(CloneState::Start, begin, &mut store).unwrap();
    assert_eq!(
        action,
        CloneAction::Init { directory: b"/tmp/here".to_vec(), layout: git_init(b"/tmp/here") }
    );
}

#[test]
fn clone_refuses_an_event_out_of_turn() {
    let mut store = ObjectStore::new();
    let answer = || CloneEvent::Answer { body: Vec::new() };
    assert_eq!(clone(CloneState::Start, CloneEvent::Done, &mut store), Err(Error::Protocol));
    assert_eq!(clone(CloneState::Start, answer(), &mut store), Err(Error::Protocol));
    assert_eq!(clone(CloneState::Creating, answer(), &mut store), Err(Error::Protocol));
    assert_eq!(clone(CloneState::Listing, CloneEvent::Done, &mut store), Err(Error::Protocol));
    let installing = CloneState::Installing { head: BLOB_A.to_string() };
    assert_eq!(clone(installing, answer(), &mut store), Err(Error::Protocol));
    assert_eq!(clone(CloneState::CheckingOut, answer(), &mut store), Err(Error::Protocol));
}

#[test]
fn clone_fails_as_its_steps_fail() {
    let mut store = ObjectStore::new();
    let answer = |body: &[u8]| CloneEvent::Answer { body: body.to_vec() };
    assert_eq!(clone(CloneState::Listing, answer(b"0000"), &mut store), Err(Error::Protocol));
    let fetching =
        || CloneState::Fetching { head: BLOB_A.to_string(), branch: "main".to_string() };
    assert_eq!(clone(fetching(), answer(b"0000"), &mut store), Err(Error::Protocol));
    let empty = fetch_answer(&[band(1, &pack_with(&[]))]);
    let (state, _) = clone(fetching(), answer(&empty), &mut store).unwrap();
    assert_eq!(clone(state, CloneEvent::Done, &mut store), Err(Error::NotFound));
    let wrong = fetch_answer(&[band(1, &pack_with(&[(3, b"A")])), band(1, b"x")]);
    assert_eq!(clone(fetching(), answer(&wrong), &mut store), Err(Error::Protocol));
    let blob_only = fetch_answer(&[band(1, &pack_with(&[(3, b"A")]))]);
    let (state, _) = clone(fetching(), answer(&blob_only), &mut store).unwrap();
    assert_eq!(clone(state, CloneEvent::Done, &mut store), Err(Error::Malformed));
}
