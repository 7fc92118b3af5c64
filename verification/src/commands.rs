//! The computing part of each command.

use vstd::prelude::*;
use vstd::utf8::{encode_utf8, valid_utf8};

use crate::bytes::{
    append, append_decimal, append_str, decimal, equal_str, first_index, lemma_first_index_is, lit,
    slice_to_vec, string_from_utf8,
};
use crate::common::{join, push_component};
use crate::digest::hex_encode;
use crate::error::Error;
use crate::network::{
    first_line, ls_refs_request, ls_remote_head, split_head_line, trim_end, trimmed_len,
};
use crate::obj_read::{open_object, ObjReader, ObjView};
use crate::obj_type::ObjType;
use crate::obj_write::{installed, loose_object, object_name, write_object};
use crate::store::{extends, Files, ObjectStore};
use crate::tree_read::{
    listing, materialise_entries, open_tree, read_entries, TreeReader, MAX_DEPTH,
};
use crate::tree_write::{tree_from_workdir, write_dir};
use crate::unpack::{unpack, unpack_from};
use crate::worktree::{children, Node, WorkEntry};

verus! {

/// What `init` creates: two directories and the file `HEAD`.
#[derive(Clone, Debug, PartialEq, Eq)]
pub struct Layout {
    /// The directory of the objects.
    pub objects: Vec<u8>,
    /// The directory of the branches.
    pub heads: Vec<u8>,
    /// The path of `HEAD`.
    pub head_path: Vec<u8>,
    /// The content of `HEAD`.
    pub head: Vec<u8>,
    /// What is printed once all is created.
    pub message: Vec<u8>,
}

/// The "git init" command: what is to be created in the directory `path`
/// to make an empty repository of it, with `HEAD` at the branch `main`,
/// and what is to be printed then.
pub fn git_init(path: &[u8]) -> (r: Layout)
    ensures
        r.objects@ == join(path@, lit(".git/objects")),
        r.heads@ == join(path@, lit(".git/refs/heads")),
        r.head_path@ == join(path@, lit(".git/HEAD")),
        r.head@ == head_ref(lit("main")),
        r.message@ == lit("Initialized empty Git repository in ") + join(path@, lit(".git/"))
            + seq![10u8],
{
    let mut objects = slice_to_vec(path, 0, path.len());
    assert(objects@ =~= path@);
    let mut heads = slice_to_vec(path, 0, path.len());
    assert(heads@ =~= path@);
    let mut head_path = slice_to_vec(path, 0, path.len());
    assert(head_path@ =~= path@);
    let mut admin = slice_to_vec(path, 0, path.len());
    assert(admin@ =~= path@);
    push_component(&mut objects, ".git/objects".as_bytes());
    push_component(&mut heads, ".git/refs/heads".as_bytes());
    push_component(&mut head_path, ".git/HEAD".as_bytes());
    push_component(&mut admin, ".git/".as_bytes());
    let mut message: Vec<u8> = Vec::new();
    append_str(&mut message, "Initialized empty Git repository in ");
    append(&mut message, admin.as_slice());
    message.push(10u8);
    Layout { objects, heads, head_path, head: head_file("main"), message }
}

/// The content of `HEAD` when it points at `branch`.
pub open spec fn head_ref(branch: Seq<u8>) -> Seq<u8> {
    lit("ref: refs/heads/") + branch + seq![10u8]
}

/// The content of `HEAD` when it points at `branch`:
/// `ref: refs/heads/<branch>` and a newline.
pub fn head_file(branch: &str) -> (r: Vec<u8>)
    ensures
        r@ == head_ref(lit(branch)),
{
    let mut out: Vec<u8> = Vec::new();
    append_str(&mut out, "ref: refs/heads/");
    append_str(&mut out, branch);
    out.push(10u8);
    out
}

/// The content of the file of a branch that points at the commit `head`:
/// the name of the commit and a newline.
pub fn ref_file(head: &str) -> (r: Vec<u8>)
    ensures
        r@ == lit(head).push(10u8),
{
    let mut out: Vec<u8> = Vec::new();
    append_str(&mut out, head);
    out.push(10u8);
    out
}

/// The path of the file of `branch` below the administrative directory.
pub fn branch_ref_path(branch: &str) -> (r: Vec<u8>)
    ensures
        r@ == lit("refs/heads/") + lit(branch),
{
    let mut out: Vec<u8> = Vec::new();
    append_str(&mut out, "refs/heads/");
    append_str(&mut out, branch);
    out
}

/// What `cat-file -p` prints for an object: the listing of a tree, and
/// the payload of any other object.
pub open spec fn cat_file(store: Files, name: Seq<u8>) -> Result<Seq<u8>, Error> {
    match open_object(store, name) {
        Err(e) => Err(e),
        Ok(v) => if v.obj_type == ObjType::Tree {
            match read_entries(v) {
                Err(e) => Err(e),
                Ok(entries) => Ok(listing(entries, false)),
            }
        } else {
            match v.read_to_end() {
                Err(e) => Err(e),
                Ok((payload, _)) => Ok(payload),
            }
        },
    }
}

/// The "cat-file -p" command: what is to be printed for the object.
pub fn cat_file_p(store: &ObjectStore, hash: &str) -> (r: Result<Vec<u8>, Error>)
    ensures
        match cat_file(store@, lit(hash)) {
            Ok(out) => r matches Ok(v) && v@ == out,
            Err(e) => r matches Err(f) && f == e,
        },
{
    let mut object = ObjReader::from_hash(store, hash)?;
    match object.obj_type() {
        ObjType::Tree => {
            let tree = TreeReader::from_object(object)?;
            tree.print_entries(false)
        },
        _ => object.read_to_end(),
    }
}

/// The "hash-object [-w]" command: the name of the blob with the given
/// content, which is installed in the store if `write`.
pub fn hash_object(content: &[u8], write: bool, store: &mut ObjectStore) -> (r: String)
    ensures
        encode_utf8(r@) == object_name(ObjType::Blob, content@),
        !write ==> final(store).slots() == old(store).slots(),
        write ==> final(store).log() == installed(old(store).log(), ObjType::Blob, content@),
        extends(final(store).slots(), old(store).slots()),
        write ==> cat_file(final(store)@, object_name(ObjType::Blob, content@)) == Ok::<
            Seq<u8>,
            Error,
        >(content@),
{
    proof {
        assert(content@.len() == content.len());
        lemma_cat_file_of_hash_object(store@, content@);
    }
    let name = write_object(ObjType::Blob, content, write, store);
    proof {
        if write {
            assert(store.log().drop_last() =~= old(store).log());
        }
    }
    name
}

/// Printing a blob that was written gives its content back: in any store
/// in which the blob has been installed last under its name, `cat-file -p`
/// of that name prints the content.
pub proof fn lemma_cat_file_of_hash_object(store: Files, content: Seq<u8>)
    requires
        content.len() <= usize::MAX,
    ensures
        cat_file(
            store.insert(
                object_name(ObjType::Blob, content),
                Some(loose_object(ObjType::Blob, content)),
            ),
            object_name(ObjType::Blob, content),
        ) == Ok::<Seq<u8>, Error>(content),
{
    crate::obj_read::lemma_object_name_valid(ObjType::Blob, content);
    crate::obj_read::lemma_open_content(ObjType::Blob, content);
    let v = ObjView { obj_type: ObjType::Blob, size: content.len(), used: 0, body: content };
    assert(v.rest() =~= content);
}

/// What `ls-tree` prints for a tree.
pub open spec fn tree_listing(store: Files, name: Seq<u8>, name_only: bool) -> Result<
    Seq<u8>,
    Error,
> {
    match open_tree(store, name) {
        Err(e) => Err(e),
        Ok(v) => match read_entries(v) {
            Err(e) => Err(e),
            Ok(entries) => Ok(listing(entries, name_only)),
        },
    }
}

/// The "ls-tree [--name-only]" command: what is to be printed for the
/// tree.
pub fn ls_tree(store: &ObjectStore, tree_hash: &str, name_only: bool) -> (r: Result<Vec<u8>, Error>)
    ensures
        match tree_listing(store@, lit(tree_hash), name_only) {
            Ok(out) => r matches Ok(v) && v@ == out,
            Err(e) => r matches Err(f) && f == e,
        },
{
    let tree = TreeReader::from_hash(store, tree_hash)?;
    tree.print_entries(name_only)
}

/// The "write-tree" command: writes the tree of the working directory
/// with the given entries to the store and returns the line to print, the
/// name of the tree.
pub fn write_tree(root: &Vec<WorkEntry>, store: &mut ObjectStore) -> (r: Result<Vec<u8>, Error>)
    ensures
        final(store).log() == write_dir(old(store).log(), children(root@)).1,
        extends(final(store).slots(), old(store).slots()),
        match write_dir(old(store).log(), children(root@)).0 {
            Ok(digest) => r matches Ok(line) && line@ == hex_encode(digest).push(10u8),
            Err(e) => r matches Err(f) && f == e,
        },
{
    let hash = tree_from_workdir(root, store)?;
    let mut line: Vec<u8> = Vec::new();
    append_str(&mut line, hash.as_str());
    line.push(10u8);
    Ok(line)
}

/// The value of an environment variable, or `default` if it is not set.
pub fn get_env_or(value: Option<String>, default: &str) -> (r: String)
    ensures
        r@ == match value {
            Some(v) => v@,
            None => default@,
        },
{
    match value {
        Some(v) => v,
        None => default.to_owned(),
    }
}

/// The date that the value of an environment variable gives. Only the
/// format `@<timestamp> <offset>` is supported: the date is what follows
/// the `@`.
pub open spec fn env_date(value: Option<Seq<u8>>) -> Option<Seq<u8>> {
    match value {
        Some(v) => if v.len() > 0 && v[0] == 64 {
            Some(v.skip(1))
        } else {
            None
        },
        None => None,
    }
}

/// The date that the value of an environment variable gives, if any.
pub fn get_env_date(value: Option<&str>) -> (r: Option<Vec<u8>>)
    ensures
        match env_date(
            match value {
                Some(v) => Some(lit(v)),
                None => None,
            },
        ) {
            Some(date) => r matches Some(d) && d@ == date,
            None => r is None,
        },
{
    match value {
        Some(v) => {
            let bytes = v.as_bytes();
            if bytes.len() > 0 && bytes[0] == 64 {
                let d = slice_to_vec(bytes, 1, bytes.len());
                assert(d@ =~= lit(v).skip(1));
                Some(d)
            } else {
                None
            }
        },
        None => None,
    }
}

/// The date of the moment `now`, in seconds since the epoch, in UTC.
pub open spec fn date_of(now: u64) -> Seq<u8> {
    decimal(now as nat) + lit(" +0000")
}

/// The date that the value of an environment variable gives, or else the
/// date of the moment `now`.
pub fn get_env_date_or_current(value: Option<&str>, now: u64) -> (r: Vec<u8>)
    ensures
        r@ == match env_date(
            match value {
                Some(v) => Some(lit(v)),
                None => None,
            },
        ) {
            Some(date) => date,
            None => date_of(now),
        },
{
    match get_env_date(value) {
        Some(date) => date,
        None => {
            let mut out: Vec<u8> = Vec::new();
            append_decimal(&mut out, now);
            append_str(&mut out, " +0000");
            out
        },
    }
}

/// Who made a commit, and when.
#[derive(Clone, Debug, PartialEq, Eq)]
pub struct Identity {
    pub name: Vec<u8>,
    pub email: Vec<u8>,
    /// The date as seconds since the epoch, a space, and the offset of the
    /// time zone.
    pub date: Vec<u8>,
}

/// The mathematical value of an identity.
pub struct IdentityView {
    pub name: Seq<u8>,
    pub email: Seq<u8>,
    pub date: Seq<u8>,
}

impl View for Identity {
    type V = IdentityView;

    open spec fn view(&self) -> IdentityView {
        IdentityView { name: self.name@, email: self.email@, date: self.date@ }
    }
}

impl IdentityView {
    /// The identity as it stands in a commit: `<name> <<email>> <date>`
    /// and a newline.
    pub open spec fn line(self) -> Seq<u8> {
        self.name + lit(" <") + self.email + lit("> ") + self.date + seq![10u8]
    }
}

/// The variable that names the author.
pub const GIT_AUTHOR_NAME: &'static str = "GIT_AUTHOR_NAME";

/// The variable that gives the address of the author.
pub const GIT_AUTHOR_EMAIL: &'static str = "GIT_AUTHOR_EMAIL";

/// The variable that gives the date of the author.
pub const GIT_AUTHOR_DATE: &'static str = "GIT_AUTHOR_DATE";

/// The variable that names the committer.
pub const GIT_COMMITTER_NAME: &'static str = "GIT_COMMITTER_NAME";

/// The variable that gives the address of the committer.
pub const GIT_COMMITTER_EMAIL: &'static str = "GIT_COMMITTER_EMAIL";

/// The variable that gives the date of the committer.
pub const GIT_COMMITTER_DATE: &'static str = "GIT_COMMITTER_DATE";

/// What the environment says of who makes a commit: the value of each of
/// the six variables, `None` where it is not set.
#[derive(Debug, PartialEq, Eq)]
pub struct Environment {
    pub author_name: Option<String>,
    pub author_email: Option<String>,
    pub author_date: Option<String>,
    pub committer_name: Option<String>,
    pub committer_email: Option<String>,
    pub committer_date: Option<String>,
}

/// The bytes of a value, or those of `default` where there is no value.
pub open spec fn value_or(value: Option<String>, default: &str) -> Seq<u8> {
    match value {
        Some(v) => encode_utf8(v@),
        None => lit(default),
    }
}

/// The date that a value gives, or the moment `now` where there is no
/// value or it does not start with `@`.
pub open spec fn date_or(value: Option<String>, now: u64) -> Seq<u8> {
    match env_date(
        match value {
            Some(v) => Some(encode_utf8(v@)),
            None => None,
        },
    ) {
        Some(date) => date,
        None => date_of(now),
    }
}

/// The author that the environment gives at the moment `now`: what is
/// not set is `Author Name` and `author@example.org`.
pub open spec fn author_of(env: Environment, now: u64) -> IdentityView {
    IdentityView {
        name: value_or(env.author_name, "Author Name"),
        email: value_or(env.author_email, "author@example.org"),
        date: date_or(env.author_date, now),
    }
}

/// The committer that the environment gives at the moment `now`: what is
/// not set is `Committer Name` and `committer@example.org`.
pub open spec fn committer_of(env: Environment, now: u64) -> IdentityView {
    IdentityView {
        name: value_or(env.committer_name, "Committer Name"),
        email: value_or(env.committer_email, "committer@example.org"),
        date: date_or(env.committer_date, now),
    }
}

/// The bytes of a value, or those of `default` where there is no value.
fn bytes_or(value: &Option<String>, default: &str) -> (r: Vec<u8>)
    ensures
        r@ == value_or(*value, default),
{
    match value {
        Some(v) => {
            let bytes = v.as_str().as_bytes();
            slice_to_vec(bytes, 0, bytes.len())
        },
        None => {
            let bytes = default.as_bytes();
            slice_to_vec(bytes, 0, bytes.len())
        },
    }
}

/// The date that a value gives, or the moment `now`.
fn date_bytes(value: &Option<String>, now: u64) -> (r: Vec<u8>)
    ensures
        r@ == date_or(*value, now),
{
    match value {
        Some(v) => get_env_date_or_current(Some(v.as_str()), now),
        None => get_env_date_or_current(None, now),
    }
}

/// The author and the committer of a commit that is made at the moment
/// `now`, in seconds since the epoch, in the given environment. A name or
/// an address that is not set is a fixed one; a date that is not
/// set, or not of the form `@<seconds> <offset>`, is `now` in UTC.
pub fn identities(env: &Environment, now: u64) -> (r: (Identity, Identity))
    ensures
        r.0@ == author_of(*env, now),
        r.1@ == committer_of(*env, now),
{
    let author = Identity {
        name: bytes_or(&env.author_name, "Author Name"),
        email: bytes_or(&env.author_email, "author@example.org"),
        date: date_bytes(&env.author_date, now),
    };
    let committer = Identity {
        name: bytes_or(&env.committer_name, "Committer Name"),
        email: bytes_or(&env.committer_email, "committer@example.org"),
        date: date_bytes(&env.committer_date, now),
    };
    (author, committer)
}

/// The bytes of each of a sequence of strings.
pub open spec fn texts(strings: Seq<String>) -> Seq<Seq<u8>> {
    Seq::new(strings.len(), |i: int| encode_utf8(strings[i]@))
}

/// One line `parent <name>` for each of the first `n` parents.
pub open spec fn parent_lines(parents: Seq<Seq<u8>>, n: nat) -> Seq<u8>
    decreases n,
{
    if n == 0 || n > parents.len() {
        Seq::empty()
    } else {
        parent_lines(parents, (n - 1) as nat) + lit("parent ") + parents[n - 1] + seq![10u8]
    }
}

/// Each of the first `n` paragraphs of the message after an empty line.
pub open spec fn paragraphs(messages: Seq<Seq<u8>>, n: nat) -> Seq<u8>
    decreases n,
{
    if n == 0 || n > messages.len() {
        Seq::empty()
    } else {
        paragraphs(messages, (n - 1) as nat) + seq![10u8] + messages[n - 1] + seq![10u8]
    }
}

/// The payload of a commit: the line of the tree, the lines of the
/// parents in order, the author, the committer, and the paragraphs of the
/// message, each after an empty line.
pub open spec fn commit_payload(
    tree: Seq<u8>,
    parents: Seq<Seq<u8>>,
    author: IdentityView,
    committer: IdentityView,
    messages: Seq<Seq<u8>>,
) -> Seq<u8> {
    lit("tree ") + tree + seq![10u8] + parent_lines(parents, parents.len()) + lit("author ")
        + author.line() + lit("committer ") + committer.line() + paragraphs(
        messages,
        messages.len(),
    )
}

/// The first line of a commit is `tree`, a space, and the name of the
/// tree, for every name that holds no newline.
pub proof fn lemma_commit_first_line(
    tree: Seq<u8>,
    parents: Seq<Seq<u8>>,
    author: IdentityView,
    committer: IdentityView,
    messages: Seq<Seq<u8>>,
)
    requires
        first_index(tree, 10) == tree.len(),
    ensures
        ({
            let payload = commit_payload(tree, parents, author, committer, messages);
            &&& first_index(payload, 10) == lit("tree ").len() + tree.len()
            &&& payload.take(first_index(payload, 10)) == lit("tree ") + tree
        }),
{
    let payload = commit_payload(tree, parents, author, committer, messages);
    let word = lit("tree ");
    reveal_strlit("tree ");
    crate::bytes::lemma_lit_ascii("tree ");
    assert(word =~= seq![116u8, 114u8, 101u8, 101u8, 32u8]);
    let k = word.len() + tree.len();
    let tail = parent_lines(parents, parents.len()) + lit("author ") + author.line() + lit(
        "committer ",
    ) + committer.line() + paragraphs(messages, messages.len());
    assert(payload =~= word + tree + seq![10u8] + tail);
    crate::bytes::lemma_first_index(tree, 10);
    assert forall|i: int| 0 <= i < k implies payload[i] != 10 by {
        if i < word.len() {
            assert(payload[i] == word[i]);
        } else {
            assert(payload[i] == tree[i - word.len()]);
        }
    }
    assert(payload[k as int] == 10);
    lemma_first_index_is(payload, 10, k as int);
    assert(payload.take(k as int) =~= word + tree);
}

/// Appends an identity as it stands in a commit.
fn append_identity(out: &mut Vec<u8>, who: &Identity)
    ensures
        final(out)@ == old(out)@ + who@.line(),
{
    append(out, who.name.as_slice());
    append_str(out, " <");
    append(out, who.email.as_slice());
    append_str(out, "> ");
    append(out, who.date.as_slice());
    out.push(10u8);
    assert(final(out)@ =~= old(out)@ + who@.line());
}

/// The "commit-tree" command: writes the commit with the given tree,
/// parents, identities and message to the store, and returns its name.
pub fn commit_tree(
    tree: &str,
    parents: &Vec<String>,
    messages: &Vec<String>,
    author: &Identity,
    committer: &Identity,
    store: &mut ObjectStore,
) -> (r: String)
    ensures
        encode_utf8(r@) == object_name(
            ObjType::Commit,
            commit_payload(lit(tree), texts(parents@), author@, committer@, texts(messages@)),
        ),
        final(store).log() == installed(
            old(store).log(),
            ObjType::Commit,
            commit_payload(lit(tree), texts(parents@), author@, committer@, texts(messages@)),
        ),
        extends(final(store).slots(), old(store).slots()),
{
    let mut content: Vec<u8> = Vec::new();
    append_str(&mut content, "tree ");
    append_str(&mut content, tree);
    content.push(10u8);
    let ghost start = content@;
    let ghost ps = texts(parents@);
    let mut i: usize = 0;
    while i < parents.len()
        invariant
            i <= parents.len(),
            ps == texts(parents@),
            content@ == start + parent_lines(ps, i as nat),
        decreases parents.len() - i,
    {
        let ghost before = content@;
        append_str(&mut content, "parent ");
        append_str(&mut content, parents[i].as_str());
        content.push(10u8);
        assert(ps[i as int] == encode_utf8(parents@[i as int]@));
        assert(content@ =~= start + parent_lines(ps, (i + 1) as nat));
        i = i + 1;
    }
    append_str(&mut content, "author ");
    append_identity(&mut content, author);
    append_str(&mut content, "committer ");
    append_identity(&mut content, committer);
    let ghost middle = content@;
    let ghost ms = texts(messages@);
    let mut j: usize = 0;
    while j < messages.len()
        invariant
            j <= messages.len(),
            ms == texts(messages@),
            content@ == middle + paragraphs(ms, j as nat),
        decreases messages.len() - j,
    {
        content.push(10u8);
        append_str(&mut content, messages[j].as_str());
        content.push(10u8);
        assert(ms[j as int] == encode_utf8(messages@[j as int]@));
        assert(content@ =~= middle + paragraphs(ms, (j + 1) as nat));
        j = j + 1;
    }
    assert(content@ =~= commit_payload(
        lit(tree),
        texts(parents@),
        author@,
        committer@,
        texts(messages@),
    ));
    write_object(ObjType::Commit, content.as_slice(), true, store)
}

/// The name of the tree in the first line of a commit: the line must be
/// `tree`, a space, and the name.
pub open spec fn tree_line(line: Seq<u8>) -> Result<Seq<u8>, Error> {
    let k = first_index(line, 32);
    if k < line.len() && line.take(k) == lit("tree") && valid_utf8(line.skip(k + 1)) {
        Ok(line.skip(k + 1))
    } else {
        Err(Error::Malformed)
    }
}

/// The name of the tree of a commit in a store. A commit whose payload
/// holds no line, or whose first line names no tree, is malformed.
pub open spec fn tree_of_commit(store: Files, name: Seq<u8>) -> Result<
    Seq<u8>,
    Error,
> {
    match open_object(store, name) {
        Err(e) => Err(e),
        Ok(v) => match v.read_up_to(10) {
            Err(_) => Err(Error::Malformed),
            Ok((line, _)) => tree_line(line),
        },
    }
}

/// The line `tree`, a space and a name gives the name back.
proof fn lemma_tree_line(tree: Seq<u8>)
    requires
        valid_utf8(tree),
    ensures
        tree_line(lit("tree ") + tree) == Ok::<Seq<u8>, Error>(tree),
{
    let line = lit("tree ") + tree;
    reveal_strlit("tree ");
    reveal_strlit("tree");
    crate::bytes::lemma_lit_ascii("tree ");
    crate::bytes::lemma_lit_ascii("tree");
    assert(lit("tree ") =~= seq![116u8, 114u8, 101u8, 101u8, 32u8]);
    assert(lit("tree") =~= seq![116u8, 114u8, 101u8, 101u8]);
    assert forall|i: int| 0 <= i < 4 implies line[i] != 32 by {}
    assert(line[4] == 32);
    lemma_first_index_is(line, 32, 4);
    assert(line.take(4) =~= lit("tree"));
    assert(line.skip(5) =~= tree);
}

/// The tree of a commit that was written is read back from it: in any
/// store in which the commit has been installed last under its name, the
/// tree of the commit of that name is the tree that the commit was made
/// with, for every name of a tree that is valid UTF-8 without a newline.
pub proof fn lemma_tree_of_written_commit(
    store: Files,
    tree: Seq<u8>,
    parents: Seq<Seq<u8>>,
    author: IdentityView,
    committer: IdentityView,
    messages: Seq<Seq<u8>>,
)
    requires
        first_index(tree, 10) == tree.len(),
        valid_utf8(tree),
        commit_payload(tree, parents, author, committer, messages).len() <= usize::MAX,
    ensures
        ({
            let payload = commit_payload(tree, parents, author, committer, messages);
            tree_of_commit(
                store.insert(
                    object_name(ObjType::Commit, payload),
                    Some(loose_object(ObjType::Commit, payload)),
                ),
                object_name(ObjType::Commit, payload),
            ) == Ok::<Seq<u8>, Error>(tree)
        }),
{
    let payload = commit_payload(tree, parents, author, committer, messages);
    crate::obj_read::lemma_object_name_valid(ObjType::Commit, payload);
    crate::obj_read::lemma_open_content(ObjType::Commit, payload);
    lemma_commit_first_line(tree, parents, author, committer, messages);
    lemma_tree_line(tree);
    let v = ObjView { obj_type: ObjType::Commit, size: payload.len(), used: 0, body: payload };
    assert(v.rest() =~= payload);
    crate::bytes::lemma_first_index(payload, 10);
}

/// The name of the tree of the commit `commit_hash`.
pub fn tree_from_commit(store: &ObjectStore, commit_hash: &str) -> (r: Result<String, Error>)
    ensures
        match tree_of_commit(store@, lit(commit_hash)) {
            Ok(tree) => r matches Ok(t) && encode_utf8(t@) == tree,
            Err(e) => r matches Err(f) && f == e,
        },
{
    let mut commit = ObjReader::from_hash(store, commit_hash)?;
    let line = match commit.read_up_to(10u8) {
        Ok(line) => line,
        Err(_) => {
            return Err(Error::Malformed);
        },
    };
    let mut k: usize = 0;
    while k < line.len() && line[k] != 32
        invariant
            k <= line.len(),
            forall|i: int| 0 <= i < k ==> line@[i] != 32,
        decreases line.len() - k,
    {
        k = k + 1;
    }
    proof {
        lemma_first_index_is(line@, 32, k as int);
    }
    if k == line.len() {
        return Err(Error::Malformed);
    }
    let word = vstd::slice::slice_subrange(line.as_slice(), 0, k);
    if !equal_str(word, "tree") {
        return Err(Error::Malformed);
    }
    let rest = slice_to_vec(line.as_slice(), k + 1, line.len());
    match string_from_utf8(rest) {
        Some(tree) => Ok(tree),
        None => Err(Error::Malformed),
    }
}

/// The directory entries that a commit stands for: those of its tree.
pub open spec fn checkout(store: Files, name: Seq<u8>) -> Result<
    Seq<(Seq<u8>, Node)>,
    Error,
> {
    match tree_of_commit(store, name) {
        Err(e) => Err(e),
        Ok(tree) => match open_tree(store, tree) {
            Err(e) => Err(e),
            Ok(v) => materialise_entries(store, v, MAX_DEPTH as nat),
        },
    }
}

/// The "checkout-empty" command: the files, directories and links of
/// the commit's tree, to be created in an empty working directory.
pub fn checkout_empty(store: &ObjectStore, commit_hash: &str) -> (r: Result<Vec<WorkEntry>, Error>)
    ensures
        match checkout(store@, lit(commit_hash)) {
            Ok(entries) => r matches Ok(v) && children(v@) == entries,
            Err(e) => r matches Err(f) && f == e,
        },
{
    let tree_hash = tree_from_commit(store, commit_hash)?;
    let tree = TreeReader::from_hash(store, tree_hash.as_str())?;
    tree.actualise_entries(store, MAX_DEPTH)
}

/// The message that reports `n` unpacked objects.
pub open spec fn unpacked_message(n: u32) -> Seq<u8> {
    lit("Unpacked ") + decimal(n as nat) + lit(" objects\n")
}

/// The "unpack-objects" command: unpacks the packfile into the store and
/// returns the message to print.
pub fn unpack_objects(pack: Vec<u8>, store: &mut ObjectStore) -> (r: Result<Vec<u8>, Error>)
    ensures
        final(store).log() == unpack(pack@, old(store).log()).1,
        extends(final(store).slots(), old(store).slots()),
        match unpack(pack@, old(store).log()).0 {
            Ok(n) => r matches Ok(m) && m@ == unpacked_message(n),
            Err(e) => r matches Err(f) && f == e,
        },
{
    let nb_obj = unpack_from(pack, store)?;
    let mut out: Vec<u8> = Vec::new();
    append_str(&mut out, "Unpacked ");
    append_decimal(&mut out, nb_obj as u64);
    append_str(&mut out, " objects\n");
    Ok(out)
}

/// The request that lists what `pattern` asks for: only `HEAD` can be
/// listed.
pub fn ls_remote_request(pattern: &str) -> (r: Result<&'static str, Error>)
    ensures
        lit(pattern) == lit("HEAD") ==> (r matches Ok(body) && body@
            == "0013command=ls-refs0001000bsymrefs0013ref-prefix HEAD0000"@),
        lit(pattern) != lit("HEAD") ==> (r matches Err(e) && e == Error::Unsupported),
{
    if equal_str(pattern.as_bytes(), "HEAD") {
        Ok(ls_refs_request())
    } else {
        Err(Error::Unsupported)
    }
}

/// What `ls-remote` prints for the answer of the server: the name of the
/// commit, a tab, and `HEAD`.
pub open spec fn remote_listing(pattern: Seq<u8>, response: Seq<u8>) -> Result<Seq<u8>, Error> {
    if pattern != lit("HEAD") {
        Err(Error::Unsupported)
    } else {
        match first_line(response) {
            Err(e) => Err(e),
            Ok(line) => match split_head_line(line) {
                Err(e) => Err(e),
                Ok((hash, _)) => Ok(hash + lit("\tHEAD\n")),
            },
        }
    }
}

/// The "ls-remote" command: what is to be printed for the answer of the
/// server to the request for `pattern`.
pub fn ls_remote(pattern: &str, response: Vec<u8>) -> (r: Result<Vec<u8>, Error>)
    ensures
        match remote_listing(lit(pattern), response@) {
            Ok(out) => r matches Ok(v) && v@ == out,
            Err(e) => r matches Err(f) && f == e,
        },
{
    if !equal_str(pattern.as_bytes(), "HEAD") {
        return Err(Error::Unsupported);
    }
    let (hash, _) = ls_remote_head(response)?;
    let mut out: Vec<u8> = Vec::new();
    append_str(&mut out, hash.as_str());
    append_str(&mut out, "\tHEAD\n");
    Ok(out)
}

/// `s` without every `suffix` at its end.
pub open spec fn trim_suffix(s: Seq<u8>, suffix: Seq<u8>) -> Seq<u8>
    decreases s.len(),
{
    if suffix.len() > 0 && s.len() >= suffix.len() && s.skip(s.len() - suffix.len()) == suffix {
        trim_suffix(s.take(s.len() - suffix.len()), suffix)
    } else {
        s
    }
}

/// What follows the last `/` of `s`: all of `s` if it holds none.
pub open spec fn last_component(s: Seq<u8>) -> Seq<u8>
    decreases s.len(),
{
    if s.len() == 0 || s.last() == 47 {
        Seq::empty()
    } else {
        last_component(s.drop_last()).push(s.last())
    }
}

/// The directory that a repository is cloned into when none is given: the
/// last component of its address, without trailing slashes and `.git`.
pub open spec fn clone_dir(url: Seq<u8>) -> Seq<u8> {
    last_component(trim_end(trim_suffix(trim_end(url, 47), lit(".git")), 47))
}

/// The directory that a repository is cloned into when none is given.
pub fn dir_from_repo_url(url: &str) -> (r: Vec<u8>)
    ensures
        r@ == clone_dir(lit(url)),
{
    let bytes = url.as_bytes();
    let n1 = trimmed_len(bytes, 47u8);
    let s1 = vstd::slice::slice_subrange(bytes, 0, n1);
    assert(s1@ =~= bytes@.take(n1 as int));
    let suffix = ".git".as_bytes();
    let mut n2: usize = n1;
    assert(s1@.take(n2 as int) =~= s1@);
    while suffix.len() > 0 && n2 >= suffix.len() && crate::bytes::equal(
        vstd::slice::slice_subrange(s1, n2 - suffix.len(), n2),
        suffix,
    )
        invariant
            n2 <= s1.len(),
            suffix@ == lit(".git"),
            trim_suffix(s1@, lit(".git")) == trim_suffix(s1@.take(n2 as int), lit(".git")),
        decreases n2,
    {
        assert(s1@.take(n2 as int).skip(n2 - suffix.len()) =~= s1@.subrange(
            n2 - suffix.len(),
            n2 as int,
        ));
        assert(s1@.take(n2 as int).take(n2 - suffix.len()) =~= s1@.take(n2 - suffix.len()));
        n2 = n2 - suffix.len();
    }
    proof {
        if suffix.len() > 0 && n2 >= suffix.len() {
            assert(s1@.take(n2 as int).skip(n2 - suffix.len()) =~= s1@.subrange(
                n2 - suffix.len(),
                n2 as int,
            ));
        }
    }
    let s2 = vstd::slice::slice_subrange(s1, 0, n2);
    assert(s2@ =~= s1@.take(n2 as int));
    let n3 = trimmed_len(s2, 47u8);
    let s3 = vstd::slice::slice_subrange(s2, 0, n3);
    assert(s3@ =~= s2@.take(n3 as int));
    let mut start: usize = n3;
    let ghost mut tail: Seq<u8> = Seq::empty();
    assert(s3@.take(n3 as int) =~= s3@);
    while start > 0 && s3[start - 1] != 47
        invariant
            start <= n3,
            n3 == s3.len(),
            tail == s3@.skip(start as int),
            last_component(s3@) == last_component(s3@.take(start as int)) + tail,
        decreases start,
    {
        let ghost prefix = s3@.take(start as int);
        assert(prefix.last() == s3@[start - 1]);
        assert(prefix.drop_last() =~= s3@.take(start - 1));
        proof {
            let shorter = last_component(s3@.take(start - 1));
            assert(shorter.push(prefix.last()) + tail =~= shorter + s3@.skip(start - 1));
            tail = s3@.skip(start - 1);
        }
        start = start - 1;
    }
    proof {
        if start > 0 {
            assert(s3@.take(start as int).last() == s3@[start - 1]);
        }
        assert(last_component(s3@.take(start as int)) =~= Seq::<u8>::empty());
    }
    let out = slice_to_vec(s3, start, n3);
    assert(out@ =~= tail);
    out
}

} // verus!
