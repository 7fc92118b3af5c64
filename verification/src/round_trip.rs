//! Writing the tree of a directory and checking it out again gives the
//! directory back.

use vstd::prelude::*;

use crate::bytes::{first_index, lemma_first_index, lemma_first_index_is, lit};
use crate::digest::{hex_encode, sha1};
use crate::error::Error;
use crate::obj_read::{lemma_object_name_valid, lemma_open_content, ObjView};
use crate::obj_type::ObjType;
use crate::obj_write::{installed, loose_object, object_name};
use crate::store::{store_map, Files, Log};
use crate::tree_entry::{lemma_mode_round_trip, lemma_mode_texts, parse_entry, EntryView, Mode};
use crate::commands::{checkout, commit_payload, IdentityView};
use crate::tree_read::{materialise_entries, materialise_entry, open_tree, MAX_DEPTH};
use crate::tree_write::{
    bytes_le, keys_of, mode_of, sort_order, write_children, write_dir, write_node,
    EMPTY_TREE_HASH,
};
use crate::worktree::Node;

verus! {

/// A set of objects, each given by its type and payload.
pub type Objects = spec_fn(ObjType, Seq<u8>) -> bool;

/// The entry for a child with the given name and digest.
pub open spec fn entry_with(name: Seq<u8>, node: Node, hash: Seq<u8>) -> EntryView {
    EntryView {
        mode: match mode_of(node) {
            Some(mode) => mode,
            None => Mode::File,
        },
        name,
        hash,
    }
}

/// The entry that stands for a child in the tree of its directory.
pub open spec fn entry_of(name: Seq<u8>, node: Node) -> EntryView {
    entry_with(name, node, node_digest(node))
}

/// The digest of the object that a node is written as.
pub open spec fn node_digest(node: Node) -> Seq<u8>
    decreases node, 0nat,
{
    match node {
        Node::Dir { entries } => sha1(loose_object(ObjType::Tree, dir_payload(entries, 0)))@,
        Node::File { content, .. } => sha1(loose_object(ObjType::Blob, content))@,
        Node::SymLink { target } => sha1(loose_object(ObjType::Blob, target))@,
        Node::Other => Seq::empty(),
    }
}

/// The entries of the children from place `from` on, one after the other
/// as they stand in a tree object.
pub open spec fn dir_payload(entries: Seq<(Seq<u8>, Node)>, from: int) -> Seq<u8>
    decreases entries, entries.len() - from,
{
    if from < 0 || from >= entries.len() {
        Seq::empty()
    } else {
        entry_with(entries[from].0, entries[from].1, node_digest(entries[from].1)).wire()
            + dir_payload(entries, from + 1)
    }
}

/// Whether a node comes back from its tree as it is, within `depth`
/// levels of directories: it holds nothing but files, links and
/// directories, each directory is as `canonical_from` says, and each of
/// its objects has a size that fits in memory.
pub open spec fn canonical(node: Node, depth: nat) -> bool
    decreases node, 0nat,
{
    match node {
        Node::Dir { entries } => depth > 0 && canonical_from(entries, 0, (depth - 1) as nat)
            && dir_payload(entries, 0).len() <= usize::MAX,
        Node::File { content, .. } => content.len() <= usize::MAX,
        Node::SymLink { target } => target.len() <= usize::MAX,
        Node::Other => false,
    }
}

/// Whether the children from place `from` on come back from their tree
/// as they are: they stand in the order of the tree, no name holds a NUL
/// or is `.git`, and no child is written under the name of the empty tree.
pub open spec fn canonical_from(entries: Seq<(Seq<u8>, Node)>, from: int, depth: nat) -> bool
    decreases entries, entries.len() - from,
{
    if from < 0 || from >= entries.len() {
        true
    } else {
        &&& first_index(entries[from].0, 0) == entries[from].0.len()
        &&& entries[from].0 != lit(".git")
        &&& canonical(entries[from].1, depth)
        &&& hex_encode(node_digest(entries[from].1)) != lit(EMPTY_TREE_HASH)
        &&& (from + 1 < entries.len() ==> bytes_le(
            keys_of(entries)[from],
            keys_of(entries)[from + 1],
        ))
        &&& canonical_from(entries, from + 1, depth)
    }
}

/// Whether every object that a node is written as is in `objects`.
pub open spec fn covers(objects: Objects, node: Node) -> bool
    decreases node, 0nat,
{
    match node {
        Node::Dir { entries } => objects(ObjType::Tree, dir_payload(entries, 0)) && covers_from(
            objects,
            entries,
            0,
        ),
        Node::File { content, .. } => objects(ObjType::Blob, content),
        Node::SymLink { target } => objects(ObjType::Blob, target),
        Node::Other => true,
    }
}

/// Whether every object that the children from place `from` on are
/// written as is in `objects`.
pub open spec fn covers_from(objects: Objects, entries: Seq<(Seq<u8>, Node)>, from: int) -> bool
    decreases entries, entries.len() - from,
{
    if from < 0 || from >= entries.len() {
        true
    } else {
        covers(objects, entries[from].1) && covers_from(objects, entries, from + 1)
    }
}

/// Whether no two objects of `objects` have the same name.
pub open spec fn unique_names(objects: Objects) -> bool {
    forall|t: ObjType, p: Seq<u8>, u: ObjType, q: Seq<u8>|
        {
            &&& objects(t, p)
            &&& objects(u, q)
            &&& #[trigger] object_name(t, p) == #[trigger] object_name(u, q)
        } ==> t == u && p == q
}

/// Whether the store holds the object under its name.
pub open spec fn has(files: Files, t: ObjType, p: Seq<u8>) -> bool {
    files.contains_key(object_name(t, p)) && files[object_name(t, p)] == Some(loose_object(t, p))
}

/// Whether every object of `objects` that `before` holds is held by
/// `after` too.
pub open spec fn kept(objects: Objects, before: Files, after: Files) -> bool {
    forall|t: ObjType, p: Seq<u8>|
        objects(t, p) && has(before, t, p) ==> #[trigger] has(after, t, p)
}

/// Whether the store holds every object that a node is written as.
pub open spec fn stored(files: Files, node: Node) -> bool
    decreases node, 0nat,
{
    match node {
        Node::Dir { entries } => has(files, ObjType::Tree, dir_payload(entries, 0)) && stored_from(
            files,
            entries,
            0,
        ),
        Node::File { content, .. } => has(files, ObjType::Blob, content),
        Node::SymLink { target } => has(files, ObjType::Blob, target),
        Node::Other => true,
    }
}

/// Whether the store holds every object that the children from place
/// `from` on are written as.
pub open spec fn stored_from(files: Files, entries: Seq<(Seq<u8>, Node)>, from: int) -> bool
    decreases entries, entries.len() - from,
{
    if from < 0 || from >= entries.len() {
        true
    } else {
        stored(files, entries[from].1) && stored_from(files, entries, from + 1)
    }
}

/// What a store holds of a node it still holds after installs that keep
/// the objects of `objects`.
proof fn lemma_stored_kept(objects: Objects, before: Files, after: Files, node: Node)
    requires
        kept(objects, before, after),
        covers(objects, node),
        stored(before, node),
    ensures
        stored(after, node),
    decreases node, 0nat,
{
    match node {
        Node::Dir { entries } => {
            assert(has(after, ObjType::Tree, dir_payload(entries, 0)));
            lemma_stored_from_kept(objects, before, after, entries, 0);
        },
        Node::File { content, .. } => {
            assert(has(after, ObjType::Blob, content));
        },
        Node::SymLink { target } => {
            assert(has(after, ObjType::Blob, target));
        },
        Node::Other => {},
    }
}

/// What a store holds of the children of a directory it still holds
/// after installs that keep the objects of `objects`.
proof fn lemma_stored_from_kept(
    objects: Objects,
    before: Files,
    after: Files,
    entries: Seq<(Seq<u8>, Node)>,
    from: int,
)
    requires
        kept(objects, before, after),
        covers_from(objects, entries, from),
        stored_from(before, entries, from),
    ensures
        stored_from(after, entries, from),
    decreases entries, entries.len() - from,
{
    if 0 <= from < entries.len() {
        lemma_stored_kept(objects, before, after, entries[from].1);
        lemma_stored_from_kept(objects, before, after, entries, from + 1);
    }
}

/// Installing an object of a set with unique names keeps the objects of
/// the set that the store holds, and makes the store hold the object.
proof fn lemma_install(objects: Objects, log: Log, t: ObjType, p: Seq<u8>)
    requires
        objects(t, p),
        unique_names(objects),
    ensures
        kept(objects, store_map(log), store_map(installed(log, t, p))),
        has(store_map(installed(log, t, p)), t, p),
{
    let after = installed(log, t, p);
    assert(after.drop_last() =~= log);
    assert(store_map(after) == store_map(log).insert(
        object_name(t, p),
        Some(loose_object(t, p)),
    ));
    assert forall|u: ObjType, q: Seq<u8>|
        objects(u, q) && has(
            store_map(log),
            u,
            q,
        ) implies #[trigger] has(
        store_map(after),
        u,
        q,
    ) by {
        if object_name(u, q) == object_name(t, p) {
            assert(u == t && q == p);
        }
    }
}

/// Keeping is transitive.
proof fn lemma_kept_twice(objects: Objects, a: Files, b: Files, c: Files)
    requires
        kept(objects, a, b),
        kept(objects, b, c),
    ensures
        kept(objects, a, c),
{
    assert forall|t: ObjType, p: Seq<u8>| objects(t, p) && has(a, t, p) implies #[trigger] has(
        c,
        t,
        p,
    ) by {
        assert(has(b, t, p));
    }
}

/// The order `0, 1, ..., n - 1`.
pub open spec fn in_order(n: nat) -> Seq<int> {
    Seq::new(n, |i: int| i)
}

/// What `canonical_from` says of each child from place `from` on.
proof fn lemma_canonical_at(entries: Seq<(Seq<u8>, Node)>, from: int, depth: nat, i: int)
    requires
        0 <= from <= i < entries.len(),
        canonical_from(entries, from, depth),
    ensures
        canonical_from(entries, i, depth),
    decreases i - from,
{
    if from < i {
        lemma_canonical_at(entries, from + 1, depth, i);
    }
}

/// Children that stand in the order of the tree are left in their order.
proof fn lemma_sorted_stays(entries: Seq<(Seq<u8>, Node)>, depth: nat, n: nat)
    requires
        n <= entries.len(),
        canonical_from(entries, 0, depth),
    ensures
        sort_order(keys_of(entries), n) == in_order(n),
    decreases n,
{
    if n == 0 {
        assert(sort_order(keys_of(entries), n) =~= in_order(n));
    } else {
        lemma_sorted_stays(entries, depth, (n - 1) as nat);
        let before = in_order((n - 1) as nat);
        if n >= 2 {
            lemma_canonical_at(entries, 0, depth, n - 2);
            assert(before.last() == n - 2);
        }
        assert(before.push(n - 1) =~= in_order(n));
    }
}

/// Writing a canonical node succeeds with its digest, keeps the objects
/// of `objects` that the store holds, and makes the store hold what the
/// node is written as.
pub proof fn lemma_write_node(objects: Objects, log: Log, node: Node, depth: nat)
    requires
        canonical(node, depth),
        covers(objects, node),
        unique_names(objects),
    ensures
        write_node(log, node).0 == Ok::<Seq<u8>, Error>(node_digest(node)),
        kept(objects, store_map(log), store_map(write_node(log, node).1)),
        stored(store_map(write_node(log, node).1), node),
    decreases node, 0nat,
{
    match node {
        Node::Dir { entries } => {
            lemma_sorted_stays(entries, (depth - 1) as nat, entries.len());
            lemma_write_children(objects, log, entries, 0, (depth - 1) as nat);
            let order = in_order(entries.len());
            let payload = dir_payload(entries, 0);
            let mid = write_children(log, entries, order, 0).1;
            let after = installed(mid, ObjType::Tree, payload);
            lemma_install(objects, mid, ObjType::Tree, payload);
            lemma_kept_twice(objects, store_map(log), store_map(mid), store_map(after));
            lemma_stored_from_kept(objects, store_map(mid), store_map(after), entries, 0);
        },
        Node::File { content, .. } => {
            lemma_install(objects, log, ObjType::Blob, content);
        },
        Node::SymLink { target } => {
            lemma_install(objects, log, ObjType::Blob, target);
        },
        Node::Other => {},
    }
}

/// Writing the canonical children of a directory from place `from` on
/// succeeds with their entries, keeps the objects of `objects` that the
/// store holds, and makes the store hold what the children are written as.
pub proof fn lemma_write_children(
    objects: Objects,
    log: Log,
    entries: Seq<(Seq<u8>, Node)>,
    from: int,
    depth: nat,
)
    requires
        0 <= from <= entries.len(),
        canonical_from(entries, from, depth),
        covers_from(objects, entries, from),
        unique_names(objects),
    ensures
        write_children(log, entries, in_order(entries.len()), from).0 == Ok::<Seq<u8>, Error>(
            dir_payload(entries, from),
        ),
        kept(
            objects,
            store_map(log),
            store_map(write_children(log, entries, in_order(entries.len()), from).1),
        ),
        stored_from(
            store_map(write_children(log, entries, in_order(entries.len()), from).1),
            entries,
            from,
        ),
    decreases entries, entries.len() - from,
{
    let order = in_order(entries.len());
    if from < entries.len() {
        let (name, node) = entries[from];
        assert(order[from] == from);
        lemma_write_node(objects, log, node, depth);
        let mid = write_node(log, node).1;
        lemma_write_children(objects, mid, entries, from + 1, depth);
        let last = write_children(mid, entries, order, from + 1).1;
        lemma_kept_twice(objects, store_map(log), store_map(mid), store_map(last));
        lemma_stored_kept(objects, store_map(mid), store_map(last), node);
        assert(mode_of(node) is Some);
    }
}

/// A reader that stands at `word`, the delimiter and `tail`, where `word`
/// holds no delimiter, delivers `word` and stands at `tail`.
proof fn lemma_read_word(v: ObjView, word: Seq<u8>, delim: u8, tail: Seq<u8>)
    requires
        v.wf(),
        v.size == v.body.len(),
        v.rest() == word + seq![delim] + tail,
        first_index(word, delim) == word.len(),
    ensures
        v.read_up_to(delim) == Ok::<(Seq<u8>, ObjView), Error>(
            (word, v.advance(word.len() as int + 1)),
        ),
        v.advance(word.len() as int + 1).wf(),
        v.advance(word.len() as int + 1).rest() == tail,
{
    let rest = v.rest();
    lemma_first_index(word, delim);
    assert forall|i: int| 0 <= i < word.len() implies rest[i] != delim by {
        assert(rest[i] == word[i]);
    }
    assert(rest[word.len() as int] == delim);
    lemma_first_index_is(rest, delim, word.len() as int);
    assert(rest.take(word.len() as int) =~= word);
    assert(v.advance(word.len() as int + 1).rest() =~= rest.skip(word.len() as int + 1));
    assert(rest.skip(word.len() as int + 1) =~= tail);
}

/// A reader that stands at `word` and `tail` delivers `word`, if it is
/// asked for as many bytes, and stands at `tail`.
proof fn lemma_read_bytes(v: ObjView, word: Seq<u8>, tail: Seq<u8>)
    requires
        v.wf(),
        v.size == v.body.len(),
        v.rest() == word + tail,
        word.len() > 0,
    ensures
        v.read_exact(word.len() as int) == Ok::<(Seq<u8>, ObjView), Error>(
            (word, v.advance(word.len() as int)),
        ),
        v.advance(word.len() as int).wf(),
        v.advance(word.len() as int).rest() == tail,
{
    let rest = v.rest();
    assert(rest.take(word.len() as int) =~= word);
    assert(v.advance(word.len() as int).rest() =~= rest.skip(word.len() as int));
    assert(rest.skip(word.len() as int) =~= tail);
}

/// No text of a mode holds a space.
proof fn lemma_mode_text_no_space(mode: Mode)
    ensures
        first_index(mode.text(), 32) == mode.text().len(),
{
    lemma_mode_texts();
    let text = mode.text();
    assert forall|i: int| 0 <= i < text.len() implies text[i] != 32 by {}
    lemma_first_index_is(text, 32, text.len() as int);
}

/// An entry is read back from its wire form: a reader that stands at the
/// wire form of an entry whose name holds no NUL and whose digest has 20
/// bytes delivers that entry and stands at what follows it.
pub proof fn lemma_parse_wire(v: ObjView, entry: EntryView, tail: Seq<u8>)
    requires
        v.wf(),
        v.size == v.body.len(),
        v.rest() == entry.wire() + tail,
        first_index(entry.name, 0) == entry.name.len(),
        entry.hash.len() == 20,
    ensures
        parse_entry(v) == (
            Ok::<EntryView, Error>(entry),
            v.advance(entry.wire().len() as int),
        ),
        v.advance(entry.wire().len() as int).rest() == tail,
        v.advance(entry.wire().len() as int).wf(),
        entry.wire().len() > 0,
{
    let text = entry.mode.text();
    lemma_mode_text_no_space(entry.mode);
    lemma_mode_round_trip(entry.mode);
    let tail1 = entry.name + seq![0u8] + (entry.hash + tail);
    assert(entry.wire() + tail =~= text + seq![32u8] + tail1);
    lemma_read_word(v, text, 32, tail1);
    let v1 = v.advance(text.len() as int + 1);
    lemma_read_word(v1, entry.name, 0, entry.hash + tail);
    let v2 = v1.advance(entry.name.len() as int + 1);
    lemma_read_bytes(v2, entry.hash, tail);
    let v3 = v2.advance(20);
    assert(v3 == v.advance(entry.wire().len() as int));
}

/// A canonical node that the store holds is materialised from its entry
/// as it is.
pub proof fn lemma_read_node(objects: Objects, files: Files, name: Seq<u8>, node: Node, depth: nat)
    requires
        canonical(node, depth),
        covers(objects, node),
        stored(files, node),
    ensures
        materialise_entry(files, entry_of(name, node), depth) == Ok::<Node, Error>(node),
    decreases node, 0nat,
{
    match node {
        Node::Dir { entries } => {
            let payload = dir_payload(entries, 0);
            lemma_object_name_valid(ObjType::Tree, payload);
            lemma_open_content(ObjType::Tree, payload);
            let v = ObjView {
                obj_type: ObjType::Tree,
                size: payload.len(),
                used: 0,
                body: payload,
            };
            assert(v.rest() =~= payload);
            lemma_read_children(objects, files, entries, 0, (depth - 1) as nat, v);
            assert(entries.skip(0) =~= entries);
        },
        Node::File { content, .. } => {
            lemma_object_name_valid(ObjType::Blob, content);
            lemma_open_content(ObjType::Blob, content);
            let v = ObjView {
                obj_type: ObjType::Blob,
                size: content.len(),
                used: 0,
                body: content,
            };
            assert(v.rest() =~= content);
        },
        Node::SymLink { target } => {
            lemma_object_name_valid(ObjType::Blob, target);
            lemma_open_content(ObjType::Blob, target);
            let v = ObjView {
                obj_type: ObjType::Blob,
                size: target.len(),
                used: 0,
                body: target,
            };
            assert(v.rest() =~= target);
        },
        Node::Other => {},
    }
}

/// The digest of a node that is no `Other` has 20 bytes.
proof fn lemma_digest_len(node: Node)
    requires
        !(node is Other),
    ensures
        node_digest(node).len() == 20,
{
}

/// A reader that stands at the entries of canonical children that the
/// store holds materialises those children as they are.
pub proof fn lemma_read_children(
    objects: Objects,
    files: Files,
    entries: Seq<(Seq<u8>, Node)>,
    from: int,
    depth: nat,
    v: ObjView,
)
    requires
        0 <= from <= entries.len(),
        canonical_from(entries, from, depth),
        covers_from(objects, entries, from),
        stored_from(files, entries, from),
        v.wf(),
        v.size == v.body.len(),
        v.rest() == dir_payload(entries, from),
    ensures
        materialise_entries(files, v, depth) == Ok::<Seq<(Seq<u8>, Node)>, Error>(
            entries.skip(from),
        ),
    decreases entries, entries.len() - from,
{
    if from < entries.len() {
        let (name, node) = entries[from];
        let entry = entry_of(name, node);
        let tail = dir_payload(entries, from + 1);
        assert(canonical(entries[from].1, depth));
        assert(node == entries[from].1);
        lemma_digest_len(node);
        lemma_parse_wire(v, entry, tail);
        let next = v.advance(entry.wire().len() as int);
        lemma_read_node(objects, files, name, node, depth);
        lemma_read_children(objects, files, entries, from + 1, depth, next);
        assert(seq![(name, node)] + entries.skip(from + 1) =~= entries.skip(from));
        assert(v.used < v.size);
    } else {
        assert(entries.skip(from) =~= Seq::<(Seq<u8>, Node)>::empty());
        assert(v.rest().len() == 0);
    }
}

/// Whether a node is written as the object of the given type and
/// payload, among others: a file as the blob of its content, a link as the
/// blob of its target, a directory as its tree and as what its children
/// are written as.
pub open spec fn written_as(node: Node, t: ObjType, p: Seq<u8>) -> bool
    decreases node, 0nat,
{
    match node {
        Node::Dir { entries } => (t == ObjType::Tree && p == dir_payload(entries, 0))
            || written_from(entries, 0, t, p),
        Node::File { content, .. } => t == ObjType::Blob && p == content,
        Node::SymLink { target } => t == ObjType::Blob && p == target,
        Node::Other => false,
    }
}

/// Whether one of the children from place `from` on is written as the
/// object of the given type and payload.
pub open spec fn written_from(
    entries: Seq<(Seq<u8>, Node)>,
    from: int,
    t: ObjType,
    p: Seq<u8>,
) -> bool
    decreases entries, entries.len() - from,
{
    if from < 0 || from >= entries.len() {
        false
    } else {
        written_as(entries[from].1, t, p) || written_from(entries, from + 1, t, p)
    }
}

/// Whether the object of the given type and payload is in `objects`.
pub open spec fn among(objects: Objects, t: ObjType, p: Seq<u8>) -> bool {
    objects(t, p)
}

/// Whether every object of `small` is in `big`.
pub open spec fn within(small: Objects, big: Objects) -> bool {
    forall|t: ObjType, p: Seq<u8>| #[trigger] among(small, t, p) ==> among(big, t, p)
}

/// A set that holds all of a smaller set covers what the smaller covers.
proof fn lemma_covers_more(small: Objects, big: Objects, node: Node)
    requires
        within(small, big),
        covers(small, node),
    ensures
        covers(big, node),
    decreases node, 0nat,
{
    match node {
        Node::Dir { entries } => {
            assert(among(small, ObjType::Tree, dir_payload(entries, 0)));
            lemma_covers_from_more(small, big, entries, 0);
        },
        Node::File { content, .. } => {
            assert(among(small, ObjType::Blob, content));
        },
        Node::SymLink { target } => {
            assert(among(small, ObjType::Blob, target));
        },
        Node::Other => {},
    }
}

/// A set that holds all of a smaller set covers the children that the
/// smaller covers.
proof fn lemma_covers_from_more(
    small: Objects,
    big: Objects,
    entries: Seq<(Seq<u8>, Node)>,
    from: int,
)
    requires
        within(small, big),
        covers_from(small, entries, from),
    ensures
        covers_from(big, entries, from),
    decreases entries, entries.len() - from,
{
    if 0 <= from < entries.len() {
        lemma_covers_more(small, big, entries[from].1);
        lemma_covers_from_more(small, big, entries, from + 1);
    }
}

/// The objects that a node is written as cover the node.
proof fn lemma_covers_itself(node: Node)
    ensures
        covers(|t: ObjType, p: Seq<u8>| written_as(node, t, p), node),
    decreases node, 0nat,
{
    match node {
        Node::Dir { entries } => {
            lemma_covers_children(entries, 0);
            lemma_covers_from_more(
                |t: ObjType, p: Seq<u8>| written_from(entries, 0, t, p),
                |t: ObjType, p: Seq<u8>| written_as(node, t, p),
                entries,
                0,
            );
        },
        _ => {},
    }
}

/// The objects that the children from place `from` on are written as
/// cover those children.
proof fn lemma_covers_children(entries: Seq<(Seq<u8>, Node)>, from: int)
    ensures
        covers_from(|t: ObjType, p: Seq<u8>| written_from(entries, from, t, p), entries, from),
    decreases entries, entries.len() - from,
{
    if 0 <= from < entries.len() {
        let all = |t: ObjType, p: Seq<u8>| written_from(entries, from, t, p);
        let child = entries[from].1;
        lemma_covers_itself(child);
        lemma_covers_more(|t: ObjType, p: Seq<u8>| written_as(child, t, p), all, child);
        lemma_covers_children(entries, from + 1);
        lemma_covers_from_more(
            |t: ObjType, p: Seq<u8>| written_from(entries, from + 1, t, p),
            all,
            entries,
            from + 1,
        );
    }
}

/// A canonical directory whose objects the store holds is checked out of
/// its tree as it is.
pub proof fn lemma_checkout_of_stored_tree(
    objects: Objects,
    files: Files,
    entries: Seq<(Seq<u8>, Node)>,
    depth: nat,
)
    requires
        canonical_from(entries, 0, depth),
        dir_payload(entries, 0).len() <= usize::MAX,
        covers(objects, Node::Dir { entries }),
        stored(files, Node::Dir { entries }),
    ensures
        open_tree(files, hex_encode(node_digest(Node::Dir { entries }))) matches Ok(v)
            && materialise_entries(files, v, depth) == Ok::<Seq<(Seq<u8>, Node)>, Error>(entries),
{
    let payload = dir_payload(entries, 0);
    lemma_object_name_valid(ObjType::Tree, payload);
    lemma_open_content(ObjType::Tree, payload);
    let v = ObjView { obj_type: ObjType::Tree, size: payload.len(), used: 0, body: payload };
    assert(v.rest() =~= payload);
    lemma_read_children(objects, files, entries, 0, depth, v);
    assert(entries.skip(0) =~= entries);
}

/// Checking out the tree of a directory whose children stand in the order
/// of the tree gives the directory back as it is.
///
/// This holds of every directory that `canonical_from` describes, at most
/// `depth` levels deep, whose tree fits in memory, in every store, as long
/// as no two of the objects that the directory is written as have the
/// same name.
pub proof fn lemma_checkout_of_canonical_tree(log: Log, entries: Seq<(Seq<u8>, Node)>, depth: nat)
    requires
        canonical_from(entries, 0, depth),
        dir_payload(entries, 0).len() <= usize::MAX,
        unique_names(|t: ObjType, p: Seq<u8>| written_as(Node::Dir { entries }, t, p)),
    ensures
        ({
            let (written, after) = write_dir(log, entries);
            &&& written matches Ok(digest)
            &&& open_tree(store_map(after), hex_encode(digest)) matches Ok(v)
            &&& materialise_entries(store_map(after), v, depth) == Ok::<
                Seq<(Seq<u8>, Node)>,
                Error,
            >(entries)
        }),
{
    let node = Node::Dir { entries };
    let objects = |t: ObjType, p: Seq<u8>| written_as(node, t, p);
    lemma_covers_itself(node);
    lemma_write_node(objects, log, node, depth + 1);
    let after = write_dir(log, entries).1;
    lemma_checkout_of_stored_tree(objects, store_map(after), entries, depth);
}

/// The node with the children of every directory in it in the order of
/// the tree.
pub open spec fn arranged(node: Node) -> Node
    decreases node, 0nat,
{
    match node {
        Node::Dir { entries } => Node::Dir {
            entries: arranged_from(entries, sort_order(keys_of(entries), entries.len()), 0),
        },
        _ => node,
    }
}

/// The children at the places `from` and on of `order`, each of them
/// arranged.
pub open spec fn arranged_from(
    entries: Seq<(Seq<u8>, Node)>,
    order: Seq<int>,
    from: int,
) -> Seq<(Seq<u8>, Node)>
    decreases entries, entries.len() - from,
{
    if from < 0 || from >= entries.len() || from >= order.len() || order[from] < 0 || order[from]
        >= entries.len() {
        Seq::empty()
    } else {
        seq![(entries[order[from]].0, arranged(entries[order[from]].1))] + arranged_from(
            entries,
            order,
            from + 1,
        )
    }
}

/// The children of a directory in the order of the tree, each of them
/// arranged.
pub open spec fn arranged_children(entries: Seq<(Seq<u8>, Node)>) -> Seq<(Seq<u8>, Node)> {
    arranged_from(entries, sort_order(keys_of(entries), entries.len()), 0)
}

/// The arranged children from a place on are the children at the places
/// of the order, one for one.
proof fn lemma_arranged_from(entries: Seq<(Seq<u8>, Node)>, order: Seq<int>, from: int)
    requires
        0 <= from <= entries.len(),
        order.len() == entries.len(),
        forall|i: int| 0 <= i < order.len() ==> 0 <= #[trigger] order[i] < entries.len(),
    ensures
        arranged_from(entries, order, from).len() == entries.len() - from,
        forall|i: int|
            0 <= i < entries.len() - from ==> #[trigger] arranged_from(entries, order, from)[i] == (
                entries[order[from + i]].0,
                arranged(entries[order[from + i]].1),
            ),
    decreases entries.len() - from,
{
    if from < entries.len() {
        lemma_arranged_from(entries, order, from + 1);
        let rest = arranged_from(entries, order, from + 1);
        let all = arranged_from(entries, order, from);
        assert forall|i: int| 0 <= i < entries.len() - from implies #[trigger] all[i] == (
            entries[order[from + i]].0,
            arranged(entries[order[from + i]].1),
        ) by {
            if i > 0 {
                assert(all[i] == rest[i - 1]);
            }
        }
    }
}

/// The arranged children of a directory are its children, each once, in
/// the order of the tree: there are as many, each is the arranged child at
/// a place of its own, and their sort keys never go down.
pub proof fn lemma_arranged_children(entries: Seq<(Seq<u8>, Node)>)
    ensures
        ({
            let order = sort_order(keys_of(entries), entries.len());
            let sorted = arranged_children(entries);
            &&& sorted.len() == entries.len()
            &&& order.len() == entries.len()
            &&& crate::tree_write::distinct(order)
            &&& forall|i: int|
                0 <= i < entries.len() ==> 0 <= #[trigger] order[i] < entries.len() && sorted[i]
                    == (entries[order[i]].0, arranged(entries[order[i]].1))
            &&& forall|i: int, j: int|
                0 <= i < j < entries.len() ==> bytes_le(
                    #[trigger] keys_of(sorted)[i],
                    #[trigger] keys_of(sorted)[j],
                )
        }),
{
    let keys = keys_of(entries);
    let order = sort_order(keys, entries.len());
    let sorted = arranged_children(entries);
    crate::tree_write::lemma_sort_order_sorts(keys, entries.len());
    lemma_arranged_from(entries, order, 0);
    assert forall|i: int| 0 <= i < entries.len() implies 0 <= #[trigger] order[i] < entries.len()
        && sorted[i] == (entries[order[i]].0, arranged(entries[order[i]].1)) by {
        assert(sorted[i] == (entries[order[0 + i]].0, arranged(entries[order[0 + i]].1)));
    }
    assert forall|i: int, j: int| 0 <= i < j < entries.len() implies bytes_le(
        #[trigger] keys_of(sorted)[i],
        #[trigger] keys_of(sorted)[j],
    ) by {
        assert(sorted[i] == (entries[order[i]].0, arranged(entries[order[i]].1)));
        assert(sorted[j] == (entries[order[j]].0, arranged(entries[order[j]].1)));
        assert(keys_of(sorted)[i] == keys[order[i]]);
        assert(keys_of(sorted)[j] == keys[order[j]]);
    }
}

/// Keys that never go down are left in their order.
proof fn lemma_sorted_keys_stay(keys: Seq<Seq<u8>>, n: nat)
    requires
        n <= keys.len(),
        forall|i: int, j: int|
            0 <= i < j < keys.len() ==> bytes_le(#[trigger] keys[i], #[trigger] keys[j]),
    ensures
        sort_order(keys, n) == in_order(n),
    decreases n,
{
    if n == 0 {
        assert(sort_order(keys, n) =~= in_order(n));
    } else {
        lemma_sorted_keys_stay(keys, (n - 1) as nat);
        let before = in_order((n - 1) as nat);
        if n >= 2 {
            assert(before.last() == n - 2);
            assert(bytes_le(keys[n - 2], keys[n - 1]));
        }
        assert(before.push(n - 1) =~= in_order(n));
    }
}

/// A node is written as the arranged node is: the same objects, in the
/// same order, and the same result.
pub proof fn lemma_write_arranged(log: Log, node: Node)
    ensures
        write_node(log, node) == write_node(log, arranged(node)),
    decreases node, 0nat,
{
    match node {
        Node::Dir { entries } => {
            let sorted = arranged_children(entries);
            lemma_arranged_children(entries);
            lemma_sorted_keys_stay(keys_of(sorted), sorted.len());
            lemma_write_children_arranged(log, entries, 0);
        },
        _ => {},
    }
}

/// The children of a directory are written from a place of the order on
/// as its arranged children are from that place on.
proof fn lemma_write_children_arranged(log: Log, entries: Seq<(Seq<u8>, Node)>, from: int)
    requires
        0 <= from <= entries.len(),
    ensures
        write_children(log, entries, sort_order(keys_of(entries), entries.len()), from)
            == write_children(
            log,
            arranged_children(entries),
            in_order(entries.len()),
            from,
        ),
    decreases entries, entries.len() - from,
{
    let order = sort_order(keys_of(entries), entries.len());
    let sorted = arranged_children(entries);
    lemma_arranged_children(entries);
    if from < entries.len() {
        let (name, node) = entries[order[from]];
        assert(sorted[from] == (name, arranged(node)));
        assert(in_order(entries.len())[from] == from);
        lemma_write_arranged(log, node);
        if name == lit(".git") {
            lemma_write_children_arranged(log, entries, from + 1);
        } else {
            let after = write_node(log, node).1;
            lemma_write_children_arranged(after, entries, from + 1);
            assert(mode_of(node) == mode_of(arranged(node)));
        }
    }
}

/// Whether an object is the commit with the given payload or one of those
/// that a node is written as.
pub open spec fn written_with_commit(node: Node, commit: Seq<u8>, t: ObjType, p: Seq<u8>) -> bool {
    written_as(node, t, p) || (t == ObjType::Commit && p == commit)
}

/// Checking out a commit of the tree of a canonical directory gives the
/// directory back as it is, as long as no two of the objects written have
/// the same name.
pub proof fn lemma_checkout_of_canonical_commit(
    log: Log,
    entries: Seq<(Seq<u8>, Node)>,
    parents: Seq<Seq<u8>>,
    author: IdentityView,
    committer: IdentityView,
    messages: Seq<Seq<u8>>,
)
    requires
        canonical_from(entries, 0, MAX_DEPTH as nat),
        dir_payload(entries, 0).len() <= usize::MAX,
        ({
            let node = Node::Dir { entries };
            let payload = commit_payload(
                hex_encode(node_digest(node)),
                parents,
                author,
                committer,
                messages,
            );
            &&& payload.len() <= usize::MAX
            &&& unique_names(|t: ObjType, p: Seq<u8>| written_with_commit(node, payload, t, p))
        }),
    ensures
        ({
            let (written, after) = write_dir(log, entries);
            let tree = hex_encode(node_digest(Node::Dir { entries }));
            let payload = commit_payload(tree, parents, author, committer, messages);
            &&& written == Ok::<Seq<u8>, Error>(node_digest(Node::Dir { entries }))
            &&& checkout(
                store_map(installed(after, ObjType::Commit, payload)),
                object_name(ObjType::Commit, payload),
            ) == Ok::<Seq<(Seq<u8>, Node)>, Error>(entries)
        }),
{
    let node = Node::Dir { entries };
    let depth = MAX_DEPTH as nat;
    let digest = node_digest(node);
    let tree = hex_encode(digest);
    let payload = commit_payload(tree, parents, author, committer, messages);
    let objects = |t: ObjType, p: Seq<u8>| written_with_commit(node, payload, t, p);
    lemma_covers_itself(node);
    lemma_covers_more(|t: ObjType, p: Seq<u8>| written_as(node, t, p), objects, node);
    lemma_write_node(objects, log, node, depth + 1);
    let after = write_dir(log, entries).1;
    let last = installed(after, ObjType::Commit, payload);
    lemma_install(objects, after, ObjType::Commit, payload);
    lemma_stored_kept(objects, store_map(after), store_map(last), node);
    lemma_checkout_of_stored_tree(objects, store_map(last), entries, depth);
    crate::digest::lemma_hex_encode_lower(digest);
    assert forall|i: int| 0 <= i < tree.len() implies tree[i] < 128 && tree[i] != 10 by {
        assert(crate::digest::is_lower_hex(tree[i]));
    }
    crate::bytes::lemma_ascii_valid_utf8(tree);
    lemma_first_index_is(tree, 10, tree.len() as int);
    assert(last.drop_last() =~= after);
    crate::commands::lemma_tree_of_written_commit(
        store_map(after),
        tree,
        parents,
        author,
        committer,
        messages,
    );
}

/// Whether a node comes back from its tree, within `depth` levels of
/// directories: it holds nothing but files, links and directories, each
/// directory is as `regular_from` says, and each of its objects has a size
/// that fits in memory. Nothing is asked of the order of the children.
pub open spec fn regular(node: Node, depth: nat) -> bool
    decreases node, 0nat,
{
    match node {
        Node::Dir { entries } => depth > 0 && regular_from(entries, 0, (depth - 1) as nat)
            && dir_payload(arranged_children(entries), 0).len() <= usize::MAX,
        Node::File { content, .. } => content.len() <= usize::MAX,
        Node::SymLink { target } => target.len() <= usize::MAX,
        Node::Other => false,
    }
}

/// Whether the children from place `from` on come back from their tree:
/// no name holds a NUL or is `.git`, each child is regular, and no child
/// is written under the name of the empty tree, as an empty directory is.
pub open spec fn regular_from(entries: Seq<(Seq<u8>, Node)>, from: int, depth: nat) -> bool
    decreases entries, entries.len() - from,
{
    if from < 0 || from >= entries.len() {
        true
    } else {
        &&& first_index(entries[from].0, 0) == entries[from].0.len()
        &&& entries[from].0 != lit(".git")
        &&& regular(entries[from].1, depth)
        &&& hex_encode(node_digest(arranged(entries[from].1))) != lit(EMPTY_TREE_HASH)
        &&& regular_from(entries, from + 1, depth)
    }
}

/// What `regular_from` says of each child from place `from` on.
proof fn lemma_regular_at(entries: Seq<(Seq<u8>, Node)>, from: int, depth: nat, i: int)
    requires
        0 <= from <= i < entries.len(),
        regular_from(entries, from, depth),
    ensures
        regular_from(entries, i, depth),
    decreases i - from,
{
    if from < i {
        lemma_regular_at(entries, from + 1, depth, i);
    }
}

/// A regular node, arranged, is canonical.
proof fn lemma_regular_arranged(node: Node, depth: nat)
    requires
        regular(node, depth),
    ensures
        canonical(arranged(node), depth),
    decreases node, 0nat,
{
    match node {
        Node::Dir { entries } => {
            lemma_regular_children(entries, 0, (depth - 1) as nat);
        },
        _ => {},
    }
}

/// The arranged children of a directory with regular children are
/// canonical.
proof fn lemma_regular_children(entries: Seq<(Seq<u8>, Node)>, from: int, depth: nat)
    requires
        0 <= from <= entries.len(),
        regular_from(entries, 0, depth),
    ensures
        canonical_from(arranged_children(entries), from, depth),
    decreases entries, entries.len() - from,
{
    let order = sort_order(keys_of(entries), entries.len());
    let sorted = arranged_children(entries);
    lemma_arranged_children(entries);
    if from < entries.len() {
        let place = order[from];
        lemma_regular_at(entries, 0, depth, place);
        assert(sorted[from] == (entries[place].0, arranged(entries[place].1)));
        lemma_regular_arranged(entries[place].1, depth);
        lemma_regular_children(entries, from + 1, depth);
    }
}

/// Checking out the tree of a directory gives the directory back: its
/// files with their content and their executable bit, its links with
/// their targets, its directories with all that is below them, the
/// children of each directory in the order of the tree.
///
/// This holds of every directory that `regular_from` describes, at most
/// `depth` levels deep, whose tree fits in memory, whatever the order in
/// which its children are given, in every store, as long as no two of the
/// objects that the directory is written as have the same name.
pub proof fn lemma_checkout_of_written_tree(log: Log, entries: Seq<(Seq<u8>, Node)>, depth: nat)
    requires
        regular_from(entries, 0, depth),
        dir_payload(arranged_children(entries), 0).len() <= usize::MAX,
        unique_names(
            |t: ObjType, p: Seq<u8>|
                written_as(Node::Dir { entries: arranged_children(entries) }, t, p),
        ),
    ensures
        ({
            let (written, after) = write_dir(log, entries);
            &&& written matches Ok(digest)
            &&& open_tree(store_map(after), hex_encode(digest)) matches Ok(v)
            &&& materialise_entries(store_map(after), v, depth) == Ok::<
                Seq<(Seq<u8>, Node)>,
                Error,
            >(arranged_children(entries))
        }),
{
    lemma_write_arranged(log, Node::Dir { entries });
    lemma_regular_children(entries, 0, depth);
    lemma_checkout_of_canonical_tree(log, arranged_children(entries), depth);
}

/// Checking out a commit of the tree of a directory gives the directory
/// back, the children of each directory in the order of the tree: after
/// the tree of a regular directory has been written, and then a commit of
/// that tree, the checkout of the commit is the directory, as long as no
/// two of the objects written have the same name.
pub proof fn lemma_checkout_of_written_commit(
    log: Log,
    entries: Seq<(Seq<u8>, Node)>,
    parents: Seq<Seq<u8>>,
    author: IdentityView,
    committer: IdentityView,
    messages: Seq<Seq<u8>>,
)
    requires
        regular_from(entries, 0, MAX_DEPTH as nat),
        dir_payload(arranged_children(entries), 0).len() <= usize::MAX,
        ({
            let node = Node::Dir { entries: arranged_children(entries) };
            let payload = commit_payload(
                hex_encode(node_digest(node)),
                parents,
                author,
                committer,
                messages,
            );
            &&& payload.len() <= usize::MAX
            &&& unique_names(|t: ObjType, p: Seq<u8>| written_with_commit(node, payload, t, p))
        }),
    ensures
        ({
            let (written, after) = write_dir(log, entries);
            let node = Node::Dir { entries: arranged_children(entries) };
            let tree = hex_encode(node_digest(node));
            let payload = commit_payload(tree, parents, author, committer, messages);
            &&& written == Ok::<Seq<u8>, Error>(node_digest(node))
            &&& checkout(
                store_map(installed(after, ObjType::Commit, payload)),
                object_name(ObjType::Commit, payload),
            ) == Ok::<Seq<(Seq<u8>, Node)>, Error>(arranged_children(entries))
        }),
{
    lemma_write_arranged(log, Node::Dir { entries });
    lemma_regular_children(entries, 0, MAX_DEPTH as nat);
    lemma_checkout_of_canonical_commit(
        log,
        arranged_children(entries),
        parents,
        author,
        committer,
        messages,
    );
}

} // verus!
