//! Where a repository keeps its administrative directory and its objects.

use vstd::prelude::*;

use crate::bytes::{append, append_str, lit, slice_to_vec};
use crate::error::Error;

verus! {

/// A directory on the way from the current directory up to the root.
#[derive(Clone, Debug, PartialEq, Eq)]
pub struct Ancestor {
    /// The path of the directory.
    pub path: Vec<u8>,
    /// Whether the directory holds a directory named `.git`.
    pub has_git: bool,
}

/// The path of `name` in the directory `dir`.
pub open spec fn join(dir: Seq<u8>, name: Seq<u8>) -> Seq<u8> {
    if dir.len() == 0 || dir.last() == 47 {
        dir + name
    } else {
        dir + seq![47u8] + name
    }
}

/// The index of the first of the first `n` ancestors that holds a `.git`
/// directory, or `n` if none does.
pub open spec fn first_repository(ancestors: Seq<Ancestor>, n: nat) -> nat
    decreases n,
{
    if n == 0 || n > ancestors.len() {
        n
    } else {
        let before = first_repository(ancestors, (n - 1) as nat);
        if before < n - 1 {
            before
        } else if ancestors[n - 1].has_git {
            (n - 1) as nat
        } else {
            n
        }
    }
}

/// The administrative directory that the ancestors lead to: `.git` in the
/// nearest ancestor that holds it.
pub open spec fn locate(ancestors: Seq<Ancestor>) -> Result<Seq<u8>, Error> {
    let i = first_repository(ancestors, ancestors.len());
    if i < ancestors.len() {
        Ok(join(ancestors[i as int].path@, lit(".git")))
    } else {
        Err(Error::NotARepository)
    }
}

/// Appends `name` to the path `dir`.
pub fn push_component(dir: &mut Vec<u8>, name: &[u8])
    ensures
        final(dir)@ == join(old(dir)@, name@),
{
    if dir.len() > 0 && dir[dir.len() - 1] != 47 {
        dir.push(47u8);
    }
    append(dir, name);
}

/// Returns the path to the administrative directory, for example
/// `/path/to/repo/.git`, given the current directory and its ancestors,
/// nearest first.
pub fn git_dir(ancestors: &Vec<Ancestor>) -> (r: Result<Vec<u8>, Error>)
    ensures
        match locate(ancestors@) {
            Ok(path) => r matches Ok(p) && p@ == path,
            Err(e) => r matches Err(f) && f == e,
        },
{
    let mut i: usize = 0;
    while i < ancestors.len()
        invariant
            i <= ancestors.len(),
            first_repository(ancestors@, i as nat) == i,
        decreases ancestors.len() - i,
    {
        if ancestors[i].has_git {
            proof {
                lemma_first_repository(ancestors@, i as nat, ancestors@.len());
            }
            let mut path = slice_to_vec(ancestors[i].path.as_slice(), 0, ancestors[i].path.len());
            assert(path@ =~= ancestors@[i as int].path@);
            push_component(&mut path, ".git".as_bytes());
            return Ok(path);
        }
        i = i + 1;
    }
    Err(Error::NotARepository)
}

/// An ancestor that is the first with a `.git` directory stays the first
/// when more ancestors are looked at.
proof fn lemma_first_repository(ancestors: Seq<Ancestor>, i: nat, n: nat)
    requires
        i < n <= ancestors.len(),
        first_repository(ancestors, i) == i,
        ancestors[i as int].has_git,
    ensures
        first_repository(ancestors, n) == i,
    decreases n,
{
    if n > i + 1 {
        lemma_first_repository(ancestors, i, (n - 1) as nat);
    }
}

/// The place of an object below the administrative directory:
/// `objects/`, the first two characters of its name, `/`, the others.
pub open spec fn object_path(git_dir: Seq<u8>, name: Seq<u8>) -> Seq<u8> {
    join(git_dir, lit("objects")) + seq![47u8] + name.take(2) + seq![47u8] + name.skip(2)
}

/// Returns the path for an object identified by its name. For example,
/// `/path/to/repo/.git/objects/01/2345...`.
pub fn path_from_hash(git_dir: &[u8], hash: &str) -> (r: Vec<u8>)
    requires
        lit(hash).len() >= 2,
    ensures
        r@ == object_path(git_dir@, lit(hash)),
{
    let name = hash.as_bytes();
    let mut path = slice_to_vec(git_dir, 0, git_dir.len());
    assert(path@ =~= git_dir@);
    push_component(&mut path, "objects".as_bytes());
    path.push(47u8);
    append(&mut path, vstd::slice::slice_subrange(name, 0, 2));
    path.push(47u8);
    append(&mut path, vstd::slice::slice_subrange(name, 2, name.len()));
    assert(path@ =~= object_path(git_dir@, lit(hash)));
    path
}

} // verus!
