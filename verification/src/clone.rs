//! Cloning a repository, step by step: what is to be done next, given what
//! has been done.

use vstd::prelude::*;
use vstd::utf8::encode_utf8;

use crate::bytes::lit;
use crate::commands::{
    branch_ref_path, checkout, checkout_empty, dir_from_repo_url, git_init, head_file, head_ref,
    ref_file, unpack_objects, unpacked_message, Layout,
};
use crate::common::join;
use crate::error::Error;
use crate::network::{
    drain, fetch_body, fetch_request, first_line, get_pack, ls_refs_request, ls_remote_head,
    open_stream, split_head_line,
};
use crate::store::{extends, ObjectStore};
use crate::unpack::unpack;
use crate::worktree::{children, WorkEntry};

verus! {

/// How far a clone has come.
#[derive(Debug, PartialEq, Eq)]
pub enum CloneState {
    /// Nothing has been done.
    Start,
    /// The repository is being created.
    Creating,
    /// The remote HEAD has been asked for.
    Listing,
    /// The objects of the commit `head`, at which the branch `branch`
    /// points, have been asked for.
    Fetching { head: String, branch: String },
    /// The objects have been unpacked, and the references are being
    /// written.
    Installing { head: String },
    /// The commit is being checked out.
    CheckingOut,
    /// The clone is complete.
    Finished,
}

/// What has happened since the last step.
#[derive(Debug, PartialEq, Eq)]
pub enum CloneEvent {
    /// The clone of a repository is asked for, into the given directory if
    /// there is one.
    Begin { repo_url: String, directory: Option<Vec<u8>> },
    /// What was to be done has been done.
    Done,
    /// The server has answered the request.
    Answer { body: Vec<u8> },
}

/// What is to be done next.
#[derive(Debug, PartialEq, Eq)]
pub enum CloneAction {
    /// Create an empty repository with the given layout, and make its
    /// directory the working directory.
    Init { directory: Vec<u8>, layout: Layout },
    /// Post the given body to the upload-pack service.
    Post { body: Vec<u8> },
    /// Write the objects of the store to disk, print `message`, and write
    /// `head` to `HEAD` and `reference` to the file `reference_path` below
    /// the administrative directory.
    Install {
        message: Vec<u8>,
        head: Vec<u8>,
        reference_path: Vec<u8>,
        reference: Vec<u8>,
    },
    /// Create the given entries in the working directory.
    CheckOut { entries: Vec<WorkEntry> },
    /// Nothing is left to do.
    Finish,
}

/// The directory that a clone goes into: the one that is given, or else
/// the one that the address of the repository gives.
pub open spec fn target_directory(repo_url: Seq<u8>, directory: Option<Vec<u8>>) -> Seq<u8> {
    match directory {
        Some(d) => d@,
        None => crate::commands::clone_dir(repo_url),
    }
}

/// The name of the commit and of the branch in the answer to the request
/// for the remote HEAD.
pub open spec fn remote_head(body: Seq<u8>) -> Result<(Seq<u8>, Seq<u8>), Error> {
    match first_line(body) {
        Err(e) => Err(e),
        Ok(line) => split_head_line(line),
    }
}

/// The packfile in the answer to a fetch request.
pub open spec fn fetched_pack(body: Seq<u8>) -> Result<Seq<u8>, Error> {
    match open_stream(body) {
        Err(e) => Err(e),
        Ok(v) => drain(v),
    }
}

/// The "clone" command, one step at a time: given how far the clone has
/// come and what has happened, says what is to be done next.
///
/// The steps are: create the repository; ask for the remote HEAD; ask for
/// its objects; unpack them into `store` and write the references; check
/// the commit out. An event that does not fit the state is an error of
/// kind `Protocol`, and so is every event once the clone is complete.
pub fn clone(state: CloneState, event: CloneEvent, store: &mut ObjectStore) -> (r: Result<
    (CloneState, CloneAction),
    Error,
>)
    ensures
        extends(final(store).slots(), old(store).slots()),
        match (state, event) {
            (CloneState::Start, CloneEvent::Begin { repo_url, directory }) => {
                &&& r matches Ok((CloneState::Creating, CloneAction::Init { directory: d, layout }))
                &&& d@ == target_directory(encode_utf8(repo_url@), directory)
                &&& layout.objects@ == join(d@, lit(".git/objects"))
                &&& layout.heads@ == join(d@, lit(".git/refs/heads"))
                &&& layout.head_path@ == join(d@, lit(".git/HEAD"))
                &&& layout.head@ == head_ref(lit("main"))
                &&& layout.message@ == lit("Initialized empty Git repository in ") + join(
                    d@,
                    lit(".git/"),
                ) + seq![10u8]
                &&& final(store).slots() == old(store).slots()
            },
            (CloneState::Creating, CloneEvent::Done) => {
                &&& r matches Ok((CloneState::Listing, CloneAction::Post { body }))
                &&& body@ == lit("0013command=ls-refs0001000bsymrefs0013ref-prefix HEAD0000")
                &&& final(store).slots() == old(store).slots()
            },
            (CloneState::Listing, CloneEvent::Answer { body }) => {
                &&& final(store).slots() == old(store).slots()
                &&& match remote_head(body@) {
                    Ok((head, branch)) => {
                        &&& r matches Ok(
                            (
                                CloneState::Fetching { head: h, branch: b },
                                CloneAction::Post { body: fetch },
                            ),
                        )
                        &&& encode_utf8(h@) == head
                        &&& encode_utf8(b@) == branch
                        &&& fetch@ == fetch_body(head)
                    },
                    Err(e) => r matches Err(f) && f == e,
                }
            },
            (CloneState::Fetching { head, branch }, CloneEvent::Answer { body }) => {
                match fetched_pack(body@) {
                    Err(e) => {
                        &&& r matches Err(f)
                        &&& f == e
                        &&& final(store).slots() == old(store).slots()
                    },
                    Ok(pack) => {
                        &&& final(store).log() == unpack(pack, old(store).log()).1
                        &&& match unpack(pack, old(store).log()).0 {
                            Err(e) => r matches Err(f) && f == e,
                            Ok(n) => {
                                &&& r matches Ok(
                                    (
                                        CloneState::Installing { head: h },
                                        CloneAction::Install {
                                            message,
                                            head: head_content,
                                            reference_path,
                                            reference,
                                        },
                                    ),
                                )
                                &&& h@ == head@
                                &&& message@ == unpacked_message(n)
                                &&& head_content@ == head_ref(encode_utf8(branch@))
                                &&& reference_path@ == lit("refs/heads/") + encode_utf8(branch@)
                                &&& reference@ == encode_utf8(head@).push(10u8)
                            },
                        }
                    },
                }
            },
            (CloneState::Installing { head }, CloneEvent::Done) => {
                &&& final(store).slots() == old(store).slots()
                &&& match checkout(old(store)@, encode_utf8(head@)) {
                    Ok(entries) => {
                        &&& r matches Ok(
                            (CloneState::CheckingOut, CloneAction::CheckOut { entries: e }),
                        )
                        &&& children(e@) == entries
                    },
                    Err(e) => r matches Err(f) && f == e,
                }
            },
            (CloneState::CheckingOut, CloneEvent::Done) => {
                &&& r matches Ok((CloneState::Finished, CloneAction::Finish))
                &&& final(store).slots() == old(store).slots()
            },
            _ => {
                &&& r matches Err(e)
                &&& e == Error::Protocol
                &&& final(store).slots() == old(store).slots()
            },
        },
{
    assert(store.slots().take(store.slots().len() as int) =~= store.slots());
    match (state, event) {
        (CloneState::Start, CloneEvent::Begin { repo_url, directory }) => {
            let directory = match directory {
                Some(d) => d,
                None => dir_from_repo_url(repo_url.as_str()),
            };
            let layout = git_init(directory.as_slice());
            Ok((CloneState::Creating, CloneAction::Init { directory, layout }))
        },
        (CloneState::Creating, CloneEvent::Done) => {
            let mut body: Vec<u8> = Vec::new();
            crate::bytes::append_str(&mut body, ls_refs_request());
            Ok((CloneState::Listing, CloneAction::Post { body }))
        },
        (CloneState::Listing, CloneEvent::Answer { body }) => {
            let (head, branch) = ls_remote_head(body)?;
            let fetch = fetch_request(head.as_str());
            Ok((CloneState::Fetching { head, branch }, CloneAction::Post { body: fetch }))
        },
        (CloneState::Fetching { head, branch }, CloneEvent::Answer { body }) => {
            let mut reader = get_pack(body)?;
            let pack = reader.read_to_end()?;
            let message = unpack_objects(pack, store)?;
            let head_content = head_file(branch.as_str());
            let reference_path = branch_ref_path(branch.as_str());
            let reference = ref_file(head.as_str());
            Ok(
                (
                    CloneState::Installing { head },
                    CloneAction::Install {
                        message,
                        head: head_content,
                        reference_path,
                        reference,
                    },
                ),
            )
        },
        (CloneState::Installing { head }, CloneEvent::Done) => {
            let entries = checkout_empty(store, head.as_str())?;
            Ok((CloneState::CheckingOut, CloneAction::CheckOut { entries }))
        },
        (CloneState::CheckingOut, CloneEvent::Done) => Ok(
            (CloneState::Finished, CloneAction::Finish),
        ),
        _ => Err(Error::Protocol),
    }
}

} // verus!
