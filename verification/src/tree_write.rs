//! Writing tree objects.

use vstd::prelude::*;
use vstd::utf8::encode_utf8;

use crate::bytes::{append, equal_str, lit, slice_to_vec};
use crate::digest::{hex_bytes, hex_encode, lemma_hex_round_trip, sha1};
use crate::error::Error;
use crate::obj_type::ObjType;
use crate::obj_write::{installed, loose_object, object_name, write_object};
use crate::store::{extends, lemma_extends_twice, Log, ObjectStore};
use crate::tree_entry::{Entry, EntryView, Mode};
use crate::worktree::{children, lemma_entries_view, Node, WorkEntry, WorkNode};

verus! {

/// The name of the empty tree, used to detect and skip empty directories.
pub const EMPTY_TREE_HASH: &'static str = "4b825dc642cb6eb9a060e54bf8d69288fbee4904";

/// Whether `a` comes before `b`, or is `b`, in the order of byte strings:
/// byte by byte, a prefix before its extensions.
pub open spec fn bytes_le(a: Seq<u8>, b: Seq<u8>) -> bool
    decreases a.len(),
{
    if a.len() == 0 {
        true
    } else if b.len() == 0 {
        false
    } else if a[0] != b[0] {
        a[0] < b[0]
    } else {
        bytes_le(a.skip(1), b.skip(1))
    }
}

/// Whether a directory entry of this name stays out of trees: the
/// administrative directory does.
pub fn is_ignored(name: &[u8]) -> (r: bool)
    ensures
        r == (name@ == lit(".git")),
{
    equal_str(name, ".git")
}

/// The string that an entry is sorted by: its name, with `/` appended if
/// it is a directory.
pub open spec fn sort_key(name: Seq<u8>, is_dir: bool) -> Seq<u8> {
    if is_dir {
        name.push(47u8)
    } else {
        name
    }
}

/// The sort keys of the children of a directory.
pub open spec fn keys_of(entries: Seq<(Seq<u8>, Node)>) -> Seq<Seq<u8>> {
    Seq::new(entries.len(), |i: int| sort_key(entries[i].0, entries[i].1 is Dir))
}

/// The sorted sequence of indices `order` with `j` put in after every
/// index whose key is not greater than that of `j`.
pub open spec fn insert_sorted(keys: Seq<Seq<u8>>, order: Seq<int>, j: int) -> Seq<int>
    decreases order.len(),
{
    if order.len() == 0 || bytes_le(keys[order.last()], keys[j]) {
        order.push(j)
    } else {
        insert_sorted(keys, order.drop_last(), j).push(order.last())
    }
}

/// The indices of the first `n` keys, sorted by key; indices with equal
/// keys keep their order.
pub open spec fn sort_order(keys: Seq<Seq<u8>>, n: nat) -> Seq<int>
    decreases n,
{
    if n == 0 {
        Seq::empty()
    } else {
        insert_sorted(keys, sort_order(keys, (n - 1) as nat), n - 1)
    }
}

/// Inserting keeps the indices and adds one.
pub proof fn lemma_insert_sorted(keys: Seq<Seq<u8>>, order: Seq<int>, j: int)
    ensures
        insert_sorted(keys, order, j).len() == order.len() + 1,
        forall|i: int|
            0 <= i < order.len() + 1 ==> (#[trigger] insert_sorted(keys, order, j)[i]) == j
                || order.contains(insert_sorted(keys, order, j)[i]),
    decreases order.len(),
{
    let r = insert_sorted(keys, order, j);
    if order.len() == 0 || bytes_le(keys[order.last()], keys[j]) {
        assert forall|i: int| 0 <= i < order.len() + 1 implies (#[trigger] r[i]) == j
            || order.contains(r[i]) by {
            if i < order.len() {
                assert(order[i] == r[i]);
            }
        }
    } else {
        let shorter = order.drop_last();
        lemma_insert_sorted(keys, shorter, j);
        let inner = insert_sorted(keys, shorter, j);
        assert forall|i: int| 0 <= i < order.len() + 1 implies (#[trigger] r[i]) == j
            || order.contains(r[i]) by {
            if i < order.len() {
                assert(r[i] == inner[i]);
                if inner[i] != j {
                    assert(shorter.contains(inner[i]));
                    let k = choose|k: int| 0 <= k < shorter.len() && shorter[k] == inner[i];
                    assert(order[k] == inner[i]);
                }
            } else {
                assert(r[i] == order.last());
                assert(order[order.len() - 1] == order.last());
            }
        }
    }
}

/// The sorted order of `n` keys has `n` indices, all below `n`.
pub proof fn lemma_sort_order(keys: Seq<Seq<u8>>, n: nat)
    ensures
        sort_order(keys, n).len() == n,
        forall|i: int| 0 <= i < n ==> 0 <= #[trigger] sort_order(keys, n)[i] < n,
    decreases n,
{
    if n > 0 {
        let prev = sort_order(keys, (n - 1) as nat);
        lemma_sort_order(keys, (n - 1) as nat);
        lemma_insert_sorted(keys, prev, n - 1);
        let r = sort_order(keys, n);
        assert forall|i: int| 0 <= i < n implies 0 <= #[trigger] r[i] < n by {
            if r[i] != n - 1 {
                assert(prev.contains(r[i]));
                let k = choose|k: int| 0 <= k < prev.len() && prev[k] == r[i];
                assert(0 <= prev[k] < n - 1);
            }
        }
    }
}

/// Of two byte strings one comes before the other, or they are equal.
pub proof fn lemma_bytes_le_total(a: Seq<u8>, b: Seq<u8>)
    ensures
        bytes_le(a, b) || bytes_le(b, a),
        bytes_le(a, b) && bytes_le(b, a) ==> a == b,
    decreases a.len(),
{
    if a.len() > 0 && b.len() > 0 && a[0] == b[0] {
        lemma_bytes_le_total(a.skip(1), b.skip(1));
        if bytes_le(a, b) && bytes_le(b, a) {
            assert(a =~= seq![a[0]] + a.skip(1));
            assert(b =~= seq![b[0]] + b.skip(1));
        }
    } else if a.len() == 0 && b.len() == 0 {
        assert(a =~= b);
    }
}

/// The order of byte strings is transitive.
pub proof fn lemma_bytes_le_transitive(a: Seq<u8>, b: Seq<u8>, c: Seq<u8>)
    requires
        bytes_le(a, b),
        bytes_le(b, c),
    ensures
        bytes_le(a, c),
    decreases a.len(),
{
    if a.len() > 0 && b.len() > 0 && c.len() > 0 && a[0] == b[0] && b[0] == c[0] {
        lemma_bytes_le_transitive(a.skip(1), b.skip(1), c.skip(1));
    }
}

/// Whether the keys at the indices of `order` never go down.
pub open spec fn sorted_by(keys: Seq<Seq<u8>>, order: Seq<int>) -> bool {
    forall|i: int, j: int|
        0 <= i < j < order.len() ==> bytes_le(keys[#[trigger] order[i]], keys[#[trigger] order[j]])
}

/// Whether no index occurs twice in `order`.
pub open spec fn distinct(order: Seq<int>) -> bool {
    forall|i: int, j: int| 0 <= i < j < order.len() ==> #[trigger] order[i] != #[trigger] order[j]
}

/// Inserting into a sorted order gives a sorted order.
proof fn lemma_insert_keeps_sorted(keys: Seq<Seq<u8>>, order: Seq<int>, j: int)
    requires
        sorted_by(keys, order),
    ensures
        sorted_by(keys, insert_sorted(keys, order, j)),
    decreases order.len(),
{
    let r = insert_sorted(keys, order, j);
    lemma_insert_sorted(keys, order, j);
    if order.len() == 0 {
    } else if bytes_le(keys[order.last()], keys[j]) {
        assert forall|a: int, b: int| 0 <= a < b < r.len() implies bytes_le(
            keys[#[trigger] r[a]],
            keys[#[trigger] r[b]],
        ) by {
            if b == order.len() {
                assert(r[a] == order[a]);
                if a < order.len() - 1 {
                    assert(bytes_le(keys[order[a]], keys[order[order.len() - 1]]));
                    lemma_bytes_le_transitive(keys[order[a]], keys[order.last()], keys[j]);
                }
            } else {
                assert(r[a] == order[a] && r[b] == order[b]);
            }
        }
    } else {
        let shorter = order.drop_last();
        assert forall|a: int, b: int| 0 <= a < b < shorter.len() implies bytes_le(
            keys[#[trigger] shorter[a]],
            keys[#[trigger] shorter[b]],
        ) by {
            assert(shorter[a] == order[a] && shorter[b] == order[b]);
        }
        lemma_insert_keeps_sorted(keys, shorter, j);
        lemma_insert_sorted(keys, shorter, j);
        let inner = insert_sorted(keys, shorter, j);
        lemma_bytes_le_total(keys[order.last()], keys[j]);
        assert forall|a: int, b: int| 0 <= a < b < r.len() implies bytes_le(
            keys[#[trigger] r[a]],
            keys[#[trigger] r[b]],
        ) by {
            if b == order.len() {
                assert(r[b] == order.last());
                assert(r[a] == inner[a]);
                if inner[a] != j {
                    assert(shorter.contains(inner[a]));
                    let k = choose|k: int| 0 <= k < shorter.len() && shorter[k] == inner[a];
                    assert(order[k] == inner[a]);
                    assert(bytes_le(keys[order[k]], keys[order[order.len() - 1]]));
                }
            } else {
                assert(r[a] == inner[a] && r[b] == inner[b]);
            }
        }
    }
}

/// Inserting an index that `order` does not hold keeps the indices
/// distinct.
proof fn lemma_insert_keeps_distinct(keys: Seq<Seq<u8>>, order: Seq<int>, j: int)
    requires
        distinct(order),
        !order.contains(j),
    ensures
        distinct(insert_sorted(keys, order, j)),
    decreases order.len(),
{
    let r = insert_sorted(keys, order, j);
    if order.len() == 0 || bytes_le(keys[order.last()], keys[j]) {
        assert forall|a: int, b: int| 0 <= a < b < r.len() implies #[trigger] r[a]
            != #[trigger] r[b] by {
            assert(r[a] == order[a]);
            if b < order.len() {
                assert(r[b] == order[b]);
            }
        }
    } else {
        let shorter = order.drop_last();
        assert forall|a: int, b: int| 0 <= a < b < shorter.len() implies #[trigger] shorter[a]
            != #[trigger] shorter[b] by {
            assert(shorter[a] == order[a] && shorter[b] == order[b]);
        }
        assert(!shorter.contains(j)) by {
            if shorter.contains(j) {
                let k = choose|k: int| 0 <= k < shorter.len() && shorter[k] == j;
                assert(order[k] == j);
            }
        }
        lemma_insert_keeps_distinct(keys, shorter, j);
        lemma_insert_sorted(keys, shorter, j);
        let inner = insert_sorted(keys, shorter, j);
        assert forall|a: int, b: int| 0 <= a < b < r.len() implies #[trigger] r[a]
            != #[trigger] r[b] by {
            if b == order.len() {
                assert(r[a] == inner[a]);
                if inner[a] != j {
                    assert(shorter.contains(inner[a]));
                    let k = choose|k: int| 0 <= k < shorter.len() && shorter[k] == inner[a];
                    assert(order[k] == inner[a]);
                }
            } else {
                assert(r[a] == inner[a] && r[b] == inner[b]);
            }
        }
    }
}

/// The sorted order of the first `n` keys holds each of the indices below
/// `n` once, and the keys at its indices never go down: it is those
/// indices sorted by key.
pub proof fn lemma_sort_order_sorts(keys: Seq<Seq<u8>>, n: nat)
    ensures
        sort_order(keys, n).len() == n,
        forall|i: int| 0 <= i < n ==> 0 <= #[trigger] sort_order(keys, n)[i] < n,
        distinct(sort_order(keys, n)),
        sorted_by(keys, sort_order(keys, n)),
    decreases n,
{
    lemma_sort_order(keys, n);
    if n > 0 {
        let prev = sort_order(keys, (n - 1) as nat);
        lemma_sort_order_sorts(keys, (n - 1) as nat);
        assert(!prev.contains(n - 1)) by {
            if prev.contains(n - 1) {
                let k = choose|k: int| 0 <= k < prev.len() && prev[k] == n - 1;
                assert(0 <= prev[k] < n - 1);
            }
        }
        lemma_insert_keeps_sorted(keys, prev, n - 1);
        lemma_insert_keeps_distinct(keys, prev, n - 1);
    }
}

/// Where `order` has, from `p` on, only indices with greater keys than
/// `j`, and before `p` an index whose key is not greater, `j` goes in at `p`.
proof fn lemma_insert_at(keys: Seq<Seq<u8>>, order: Seq<int>, j: int, p: int)
    requires
        0 <= p <= order.len(),
        forall|q: int| p <= q < order.len() ==> !bytes_le(keys[#[trigger] order[q]], keys[j]),
        p > 0 ==> bytes_le(keys[order[p - 1]], keys[j]),
    ensures
        insert_sorted(keys, order, j) == order.insert(p, j),
    decreases order.len() - p,
{
    if p == order.len() {
        assert(order.insert(p, j) =~= order.push(j));
    } else {
        let shorter = order.drop_last();
        assert(!bytes_le(keys[order[order.len() - 1]], keys[j]));
        assert forall|q: int| p <= q < shorter.len() implies !bytes_le(
            keys[#[trigger] shorter[q]],
            keys[j],
        ) by {
            assert(shorter[q] == order[q]);
        }
        lemma_insert_at(keys, shorter, j, p);
        assert(shorter.insert(p, j).push(order.last()) =~= order.insert(p, j));
    }
}

/// Whether `a` comes before `b`, or is `b`, in the order of byte strings.
pub fn le(a: &[u8], b: &[u8]) -> (r: bool)
    ensures
        r == bytes_le(a@, b@),
{
    let mut i: usize = 0;
    assert(a@.skip(0) == a@);
    assert(b@.skip(0) == b@);
    loop
        invariant
            i <= a.len(),
            i <= b.len(),
            bytes_le(a@, b@) == bytes_le(a@.skip(i as int), b@.skip(i as int)),
        decreases a.len() - i,
    {
        if i == a.len() {
            return true;
        }
        if i == b.len() {
            return false;
        }
        assert(a@.skip(i as int)[0] == a@[i as int]);
        assert(b@.skip(i as int)[0] == b@[i as int]);
        if a[i] != b[i] {
            return a[i] < b[i];
        }
        assert(a@.skip(i as int).skip(1) == a@.skip(i + 1));
        assert(b@.skip(i as int).skip(1) == b@.skip(i + 1));
        i = i + 1;
    }
}

/// The order in which the entries of a directory go into its tree: sorted
/// as if directories had a `/` appended to their name.
pub fn sorted_entries(entries: &Vec<WorkEntry>) -> (order: Vec<usize>)
    ensures
        order@.len() == entries@.len(),
        forall|i: int| 0 <= i < order@.len() ==> #[trigger] order@[i] < entries@.len(),
        order@.map_values(|x: usize| x as int) == sort_order(
            keys_of(children(entries@)),
            entries@.len(),
        ),
        distinct(order@.map_values(|x: usize| x as int)),
        sorted_by(keys_of(children(entries@)), order@.map_values(|x: usize| x as int)),
{
    let ghost es = children(entries@);
    let ghost ks = keys_of(es);
    proof {
        lemma_entries_view(entries@, entries@.len());
    }
    let mut keys: Vec<Vec<u8>> = Vec::new();
    let mut i: usize = 0;
    while i < entries.len()
        invariant
            i <= entries.len(),
            es == children(entries@),
            ks == keys_of(es),
            es.len() == entries@.len(),
            forall|k: int| 0 <= k < entries@.len() ==> #[trigger] es[k] == entries@[k]@,
            keys@.len() == i,
            forall|k: int| 0 <= k < i ==> (#[trigger] keys@[k])@ == ks[k],
        decreases entries.len() - i,
    {
        let entry = &entries[i];
        let mut key = slice_to_vec(entry.name.as_slice(), 0, entry.name.len());
        assert(key@ =~= entry.name@);
        assert(es[i as int] == entries@[i as int]@);
        match &entry.node {
            WorkNode::Dir { .. } => {
                key.push(47u8);
            },
            _ => {},
        }
        assert(key@ == ks[i as int]);
        keys.push(key);
        i = i + 1;
    }
    let mut order: Vec<usize> = Vec::new();
    let mut j: usize = 0;
    while j < entries.len()
        invariant
            j <= entries.len(),
            keys@.len() == entries@.len(),
            ks.len() == entries@.len(),
            forall|k: int| 0 <= k < keys@.len() ==> (#[trigger] keys@[k])@ == ks[k],
            order@.len() == j,
            forall|k: int| 0 <= k < order@.len() ==> #[trigger] order@[k] < j,
            order@.map_values(|x: usize| x as int) == sort_order(ks, j as nat),
        decreases entries.len() - j,
    {
        let ghost before = order@.map_values(|x: usize| x as int);
        let mut p: usize = order.len();
        while p > 0 && !le(keys[order[p - 1]].as_slice(), keys[j].as_slice())
            invariant
                p <= order@.len(),
                j < keys@.len(),
                keys@.len() == ks.len(),
                forall|k: int| 0 <= k < keys@.len() ==> (#[trigger] keys@[k])@ == ks[k],
                forall|k: int| 0 <= k < order@.len() ==> #[trigger] order@[k] < j,
                before == order@.map_values(|x: usize| x as int),
                forall|q: int|
                    p <= q < before.len() ==> !bytes_le(ks[#[trigger] before[q]], ks[j as int]),
            decreases p,
        {
            assert(before[p - 1] == order@[p - 1]);
            p = p - 1;
        }
        proof {
            if p > 0 {
                assert(before[p - 1] == order@[p - 1]);
            }
            lemma_insert_at(ks, before, j as int, p as int);
        }
        order.insert(p, j);
        assert(order@.map_values(|x: usize| x as int) =~= before.insert(p as int, j as int));
        j = j + 1;
    }
    proof {
        lemma_sort_order_sorts(ks, entries@.len());
    }
    order
}

/// The mode of the tree entry for a node, if it can have one.
pub open spec fn mode_of(node: Node) -> Option<Mode> {
    match node {
        Node::File { executable, .. } => if executable {
            Some(Mode::Exe)
        } else {
            Some(Mode::File)
        },
        Node::Dir { .. } => Some(Mode::Dir),
        Node::SymLink { .. } => Some(Mode::SymLink),
        Node::Other => None,
    }
}

/// Writing the object for a node into the journal `log`: a blob for the
/// content of a file or the target of a link, a tree for a directory.
/// Returns the digest of the object or the error, and the journal after.
pub open spec fn write_node(log: Log, node: Node) -> (
    Result<Seq<u8>, Error>,
    Log,
)
    decreases node, 0nat,
{
    match node {
        Node::Dir { entries } => write_dir(log, entries),
        Node::File { content, .. } => (
            Ok(sha1(loose_object(ObjType::Blob, content))@),
            installed(log, ObjType::Blob, content),
        ),
        Node::SymLink { target } => (
            Ok(sha1(loose_object(ObjType::Blob, target))@),
            installed(log, ObjType::Blob, target),
        ),
        Node::Other => (Err(Error::UnsupportedFileType), log),
    }
}

/// Writing the tree of a directory: the objects of its children in sorted
/// order, then the tree object that lists them.
pub open spec fn write_dir(log: Log, entries: Seq<(Seq<u8>, Node)>) -> (
    Result<Seq<u8>, Error>,
    Log,
)
    decreases entries, entries.len() + 1,
{
    let order = sort_order(keys_of(entries), entries.len());
    match write_children(log, entries, order, 0) {
        (Err(e), after) => (Err(e), after),
        (Ok(payload), after) => (
            Ok(sha1(loose_object(ObjType::Tree, payload))@),
            installed(after, ObjType::Tree, payload),
        ),
    }
}

/// Writing the objects of the children from place `from` of `order` on;
/// returns the entries for them as they stand in the tree object. A child
/// named `.git` is passed over; a child whose object has the name of the
/// empty tree is written but gets no entry.
pub open spec fn write_children(
    log: Log,
    entries: Seq<(Seq<u8>, Node)>,
    order: Seq<int>,
    from: int,
) -> (Result<Seq<u8>, Error>, Log)
    decreases entries, entries.len() - from,
{
    if from < 0 || from >= entries.len() || from >= order.len() || order[from] < 0 || order[from]
        >= entries.len() {
        (Ok(Seq::empty()), log)
    } else {
        let (name, node) = entries[order[from]];
        if name == lit(".git") {
            write_children(log, entries, order, from + 1)
        } else {
            match write_node(log, node) {
                (Err(e), after) => (Err(e), after),
                (Ok(digest), after) => match write_children(after, entries, order, from + 1) {
                    (Err(e), last) => (Err(e), last),
                    (Ok(rest), last) => if hex_encode(digest) == lit(EMPTY_TREE_HASH) {
                        (Ok(rest), last)
                    } else {
                        match mode_of(node) {
                            Some(mode) => (
                                Ok((EntryView { mode, name, hash: digest }).wire() + rest),
                                last,
                            ),
                            None => (Ok(rest), last),
                        }
                    },
                },
            }
        }
    }
}

/// The tree of a directory without children is the empty tree: it has no
/// entries, and nothing but the tree object is written for it.
pub proof fn lemma_empty_tree(log: Log)
    ensures
        write_dir(log, Seq::empty()).0 == Ok::<Seq<u8>, Error>(
            sha1(loose_object(ObjType::Tree, Seq::empty()))@,
        ),
        write_dir(log, Seq::empty()).1 == installed(log, ObjType::Tree, Seq::empty()),
{
}

/// Hashes the given node and writes its object, and those of what is
/// below it, to the store.
pub fn hash_entry(node: &WorkNode, store: &mut ObjectStore) -> (r: Result<String, Error>)
    ensures
        final(store).log() == write_node(old(store).log(), node@).1,
        extends(final(store).slots(), old(store).slots()),
        match write_node(old(store).log(), node@).0 {
            Ok(digest) => r matches Ok(name) && encode_utf8(name@) == hex_encode(digest)
                && digest.len() == 20,
            Err(e) => r matches Err(f) && f == e,
        },
    decreases node,
{
    match node {
        WorkNode::Dir { entries } => {
            proof {
                lemma_entries_view(entries@, entries@.len());
            }
            tree_from_dir(entries, store)
        },
        WorkNode::File { content, .. } => {
            Ok(write_object(ObjType::Blob, content.as_slice(), true, store))
        },
        WorkNode::SymLink { target } => {
            Ok(write_object(ObjType::Blob, target.as_slice(), true, store))
        },
        WorkNode::Other => {
            assert(store.slots().take(store.slots().len() as int) =~= store.slots());
            Err(Error::UnsupportedFileType)
        },
    }
}

/// Creates a tree object for the given directory and returns its name.
pub fn tree_from_dir(entries: &Vec<WorkEntry>, store: &mut ObjectStore) -> (r: Result<
    String,
    Error,
>)
    ensures
        final(store).log() == write_dir(old(store).log(), children(entries@)).1,
        extends(final(store).slots(), old(store).slots()),
        match write_dir(old(store).log(), children(entries@)).0 {
            Ok(digest) => r matches Ok(name) && encode_utf8(name@) == hex_encode(digest)
                && digest.len() == 20,
            Err(e) => r matches Err(f) && f == e,
        },
    decreases entries,
{
    let ghost es = children(entries@);
    let ghost log0 = store.log();
    proof {
        lemma_entries_view(entries@, entries@.len());
    }
    // Everything is needed in memory, as the size must be known before the
    // object is written.
    let mut out: Vec<u8> = Vec::new();
    let order = sorted_entries(entries);
    let ghost ord = order@.map_values(|x: usize| x as int);
    let ghost total = write_children(log0, es, ord, 0);
    assert(store.slots().take(store.slots().len() as int) =~= store.slots());
    let mut from: usize = 0;
    while from < order.len()
        invariant
            from <= order@.len(),
            order@.len() == entries@.len(),
            es == children(entries@),
            es.len() == entries@.len(),
            forall|k: int| 0 <= k < entries@.len() ==> #[trigger] es[k] == entries@[k]@,
            forall|i: int| 0 <= i < order@.len() ==> #[trigger] order@[i] < entries@.len(),
            ord == order@.map_values(|x: usize| x as int),
            ord == sort_order(keys_of(es), es.len()),
            log0 == old(store).log(),
            extends(store.slots(), old(store).slots()),
            total == write_children(log0, es, ord, 0),
            ({
                let (rest, last) = write_children(store.log(), es, ord, from as int);
                &&& total.1 == last
                &&& match rest {
                    Ok(p) => total.0 == Ok::<Seq<u8>, Error>(out@ + p),
                    Err(e) => total.0 == Err::<Seq<u8>, Error>(e),
                }
            }),
        decreases order@.len() - from,
    {
        let j: usize = order[from];
        assert(ord[from as int] == j);
        let entry = &entries[j];
        assert(es[j as int] == entry@);
        from = from + 1;
        if is_ignored(entry.name.as_slice()) {
            continue;
        }
        let ghost before = store.log();
        let ghost slots_before = store.slots();
        let found = hash_entry(&entry.node, store);
        proof {
            lemma_extends_twice(old(store).slots(), slots_before, store.slots());
        }
        let hash = found?;
        let ghost digest = write_node(before, entry.node@).0->Ok_0;
        if equal_str(hash.as_str().as_bytes(), EMPTY_TREE_HASH) {
            continue;
        }
        proof {
            lemma_hex_round_trip(digest);
        }
        let decoded = match hex_bytes(hash.as_str().as_bytes()) {
            Some(d) => d,
            None => vstd::pervasive::unreached(),
        };
        assert(decoded@ == digest);
        let mut digest_bytes = [0u8; 20];
        let mut i: usize = 0;
        while i < 20
            invariant
                i <= 20,
                decoded@.len() == 20,
                forall|k: int| 0 <= k < i ==> digest_bytes@[k] == decoded@[k],
            decreases 20 - i,
        {
            digest_bytes[i] = decoded[i];
            i = i + 1;
        }
        assert(digest_bytes@ =~= digest);
        let mode = match &entry.node {
            WorkNode::Dir { .. } => Mode::Dir,
            WorkNode::SymLink { .. } => Mode::SymLink,
            WorkNode::File { executable, .. } => if *executable {
                Mode::Exe
            } else {
                Mode::File
            },
            WorkNode::Other => vstd::pervasive::unreached(),
        };
        let name = slice_to_vec(entry.name.as_slice(), 0, entry.name.len());
        assert(name@ =~= entry.name@);
        let item = Entry { mode, name, hash: digest_bytes };
        let ghost prev = out@;
        item.push_to_vec(&mut out);
        proof {
            let (rest, last) = write_children(store.log(), es, ord, from as int);
            if rest is Ok {
                assert((prev + item@.wire()) + rest->Ok_0 =~= prev + (item@.wire() + rest->Ok_0));
            }
        }
    }
    assert(out@ + Seq::<u8>::empty() =~= out@);
    let ghost slots_before = store.slots();
    let name = write_object(ObjType::Tree, out.as_slice(), true, store);
    proof {
        lemma_sort_order(keys_of(es), es.len());
        lemma_extends_twice(old(store).slots(), slots_before, store.slots());
    }
    Ok(name)
}

/// Creates a tree object for the working directory with the given
/// entries and returns its name.
pub fn tree_from_workdir(root: &Vec<WorkEntry>, store: &mut ObjectStore) -> (r: Result<
    String,
    Error,
>)
    ensures
        final(store).log() == write_dir(old(store).log(), children(root@)).1,
        extends(final(store).slots(), old(store).slots()),
        match write_dir(old(store).log(), children(root@)).0 {
            Ok(digest) => r matches Ok(name) && encode_utf8(name@) == hex_encode(digest)
                && digest.len() == 20,
            Err(e) => r matches Err(f) && f == e,
        },
{
    tree_from_dir(root, store)
}

} // verus!
