//! Reader for tree objects.

use vstd::prelude::*;

use crate::bytes::lit;
use crate::digest::{hex_encode, hex_string};
use crate::error::Error;
use crate::obj_read::{open_object, ObjReader, ObjView};
use crate::obj_type::ObjType;
use crate::store::{Files, ObjectStore};
use crate::tree_entry::{parse_entry, Entry, EntryView, Mode};
use crate::worktree::{children, lemma_entries_view, Node, WorkEntry, WorkNode};

verus! {

/// Reading an entry leaves the reader well-formed and further on.
pub proof fn lemma_parse_entry(v: ObjView)
    requires
        v.wf(),
    ensures
        parse_entry(v).1.wf(),
        parse_entry(v).1.used >= v.used,
        parse_entry(v).0 is Ok ==> parse_entry(v).1.used > v.used,
        parse_entry(v).1.size == v.size,
        parse_entry(v).1.body == v.body,
        parse_entry(v).1.obj_type == v.obj_type,
{
    crate::bytes::lemma_first_index(v.rest(), 32);
    match v.read_up_to(32) {
        Err(e) => {},
        Ok((text, v1)) => {
            crate::bytes::lemma_first_index(v1.rest(), 0);
        },
    }
}

/// Reading the entries of a tree object one after the other until the
/// declared size has been delivered.
pub open spec fn read_entries(v: ObjView) -> Result<Seq<EntryView>, Error>
    decreases v.owed(),
    when v.wf()
{
    match v.eof() {
        Err(e) => Err(e),
        Ok(true) => Ok(Seq::empty()),
        Ok(false) => {
            proof {
                lemma_parse_entry(v);
            }
            match parse_entry(v) {
                (Err(e), _) => Err(e),
                (Ok(entry), next) => match read_entries(next) {
                    Err(e) => Err(e),
                    Ok(rest) => Ok(seq![entry] + rest),
                },
            }
        },
    }
}

/// The listing of a sequence of entries: one line for each.
pub open spec fn listing(entries: Seq<EntryView>, name_only: bool) -> Seq<u8>
    decreases entries.len(),
{
    if entries.len() == 0 {
        Seq::empty()
    } else if name_only {
        listing(entries.drop_last(), name_only) + entries.last().name_line()
    } else {
        listing(entries.drop_last(), name_only) + entries.last().line()
    }
}

/// The deepest nesting of directories that a checkout follows.
pub const MAX_DEPTH: usize = 4096;

/// The children that the entries of a tree object stand for, each with
/// its name, following directories at most `depth` levels down.
pub open spec fn materialise_entries(
    store: Files,
    v: ObjView,
    depth: nat,
) -> Result<Seq<(Seq<u8>, Node)>, Error>
    decreases depth, v.owed() + 1,
    when v.wf()
{
    match v.eof() {
        Err(e) => Err(e),
        Ok(true) => Ok(Seq::empty()),
        Ok(false) => {
            proof {
                lemma_parse_entry(v);
            }
            match parse_entry(v) {
                (Err(e), _) => Err(e),
                (Ok(entry), next) => match materialise_entry(store, entry, depth) {
                    Err(e) => Err(e),
                    Ok(node) => match materialise_entries(store, next, depth) {
                        Err(e) => Err(e),
                        Ok(rest) => Ok(seq![(entry.name, node)] + rest),
                    },
                },
            }
        },
    }
}

/// The file, directory or link that an entry stands for. A submodule is
/// refused; for the others the object is opened: a directory must point
/// at a tree, whose entries are followed; a file takes the whole payload
/// as its content, a link as its target.
pub open spec fn materialise_entry(
    store: Files,
    entry: EntryView,
    depth: nat,
) -> Result<Node, Error>
    decreases depth, 0int,
{
    if entry.mode == Mode::SubMod {
        Err(Error::SubmoduleUnsupported)
    } else {
        match open_object(store, hex_encode(entry.hash)) {
            Err(e) => Err(e),
            Ok(v) => if entry.mode == Mode::Dir {
                if v.obj_type != ObjType::Tree {
                    Err(Error::NotATree)
                } else if depth == 0 {
                    Err(Error::TooDeep)
                } else {
                    match materialise_entries(store, v, (depth - 1) as nat) {
                        Err(e) => Err(e),
                        Ok(entries) => Ok(Node::Dir { entries }),
                    }
                }
            } else {
                match v.read_to_end() {
                    Err(e) => Err(e),
                    Ok((payload, _)) => if entry.mode == Mode::SymLink {
                        Ok(Node::SymLink { target: payload })
                    } else {
                        Ok(Node::File { executable: entry.mode == Mode::Exe, content: payload })
                    },
                }
            },
        }
    }
}

/// A simple wrapper for an object reader, with tree-specific methods.
pub struct TreeReader {
    object: ObjReader,
}

impl View for TreeReader {
    type V = ObjView;

    closed spec fn view(&self) -> ObjView {
        self.object@
    }
}

/// Opening the tree that `name` names in a store.
pub open spec fn open_tree(store: Files, name: Seq<u8>) -> Result<ObjView, Error> {
    match open_object(store, name) {
        Err(e) => Err(e),
        Ok(v) => if v.obj_type == ObjType::Tree {
            Ok(v)
        } else {
            Err(Error::NotATree)
        },
    }
}

impl TreeReader {
    /// Creates a tree reader from the name of a tree in `store`.
    pub fn from_hash(store: &ObjectStore, hash: &str) -> (r: Result<TreeReader, Error>)
        ensures
            match open_tree(store@, lit(hash)) {
                Ok(v) => r matches Ok(t) && t@ == v && v.wf(),
                Err(e) => r matches Err(f) && f == e,
            },
    {
        let object = ObjReader::from_hash(store, hash)?;
        TreeReader::from_object(object)
    }

    /// Creates a tree reader from an object reader.
    pub fn from_object(object: ObjReader) -> (r: Result<TreeReader, Error>)
        ensures
            object@.obj_type == ObjType::Tree ==> (r matches Ok(t) && t@ == object@ && t@.wf()),
            object@.obj_type != ObjType::Tree ==> (r matches Err(e) && e == Error::NotATree),
    {
        proof {
            use_type_invariant(&object);
        }
        if object.obj_type() != ObjType::Tree {
            return Err(Error::NotATree);
        }
        Ok(TreeReader { object })
    }

    /// The entries of this tree.
    pub fn entries(self) -> (r: Result<Vec<Entry>, Error>)
        ensures
            match read_entries(self@) {
                Ok(es) => r matches Ok(v) && v@.len() == es.len() && forall|i: int|
                    0 <= i < es.len() ==> (#[trigger] v@[i])@ == es[i],
                Err(e) => r matches Err(f) && f == e,
            },
    {
        let mut reader = self;
        let mut out: Vec<Entry> = Vec::new();
        let ghost mut done: Seq<EntryView> = Seq::empty();
        proof {
            use_type_invariant(&reader.object);
        }
        loop
            invariant
                reader@.wf(),
                out@.len() == done.len(),
                forall|i: int| 0 <= i < done.len() ==> (#[trigger] out@[i])@ == done[i],
                match read_entries(reader@) {
                    Ok(rest) => read_entries(self@) == Ok::<Seq<EntryView>, Error>(done + rest),
                    Err(e) => read_entries(self@) == Err::<Seq<EntryView>, Error>(e),
                },
            decreases reader@.owed(),
        {
            let ghost before = reader@;
            if reader.object.eof()? {
                assert(done + Seq::<EntryView>::empty() =~= done);
                return Ok(out);
            }
            proof {
                lemma_parse_entry(before);
            }
            let entry = Entry::parse(&mut reader.object)?;
            proof {
                let rest = read_entries(reader@);
                if rest is Ok {
                    assert(done.push(entry@) + rest->Ok_0 =~= done + (seq![entry@] + rest->Ok_0));
                }
                done = done.push(entry@);
            }
            out.push(entry);
        }
    }

    /// Lists this tree's entries: one line for each, with the name alone
    /// if `name_only`.
    pub fn print_entries(self, name_only: bool) -> (r: Result<Vec<u8>, Error>)
        ensures
            match read_entries(self@) {
                Ok(es) => r matches Ok(v) && v@ == listing(es, name_only),
                Err(e) => r matches Err(f) && f == e,
            },
    {
        let mut reader = self;
        let mut out: Vec<u8> = Vec::new();
        let ghost mut done: Seq<EntryView> = Seq::empty();
        proof {
            use_type_invariant(&reader.object);
        }
        loop
            invariant
                reader@.wf(),
                out@ == listing(done, name_only),
                match read_entries(reader@) {
                    Ok(rest) => read_entries(self@) == Ok::<Seq<EntryView>, Error>(done + rest),
                    Err(e) => read_entries(self@) == Err::<Seq<EntryView>, Error>(e),
                },
            decreases reader@.owed(),
        {
            let ghost before = reader@;
            if reader.object.eof()? {
                assert(done + Seq::<EntryView>::empty() =~= done);
                return Ok(out);
            }
            proof {
                lemma_parse_entry(before);
            }
            let entry = Entry::parse(&mut reader.object)?;
            if name_only {
                entry.print_name(&mut out);
            } else {
                entry.print(&mut out);
            }
            proof {
                let rest = read_entries(reader@);
                if rest is Ok {
                    assert(done.push(entry@) + rest->Ok_0 =~= done + (seq![entry@] + rest->Ok_0));
                }
                assert(done.push(entry@).drop_last() =~= done);
                done = done.push(entry@);
            }
        }
    }

    /// Turns this tree object into the directory entries that it stands
    /// for, following directories at most `depth` levels down.
    pub fn actualise_entries(self, store: &ObjectStore, depth: usize) -> (r: Result<
        Vec<WorkEntry>,
        Error,
    >)
        ensures
            match materialise_entries(store@, self@, depth as nat) {
                Ok(es) => r matches Ok(v) && children(v@) == es,
                Err(e) => r matches Err(f) && f == e,
            },
        decreases depth, 1int,
    {
        let mut reader = self;
        let mut out: Vec<WorkEntry> = Vec::new();
        let ghost mut done: Seq<(Seq<u8>, Node)> = Seq::empty();
        let ghost all = materialise_entries(store@, self@, depth as nat);
        proof {
            use_type_invariant(&reader.object);
        }
        loop
            invariant
                reader@.wf(),
                children(out@) == done,
                all == materialise_entries(store@, self@, depth as nat),
                match materialise_entries(store@, reader@, depth as nat) {
                    Ok(rest) => all == Ok::<Seq<(Seq<u8>, Node)>, Error>(done + rest),
                    Err(e) => all == Err::<Seq<(Seq<u8>, Node)>, Error>(e),
                },
            decreases reader@.owed(),
        {
            let ghost before = reader@;
            if reader.object.eof()? {
                assert(done + Seq::<(Seq<u8>, Node)>::empty() =~= done);
                return Ok(out);
            }
            proof {
                lemma_parse_entry(before);
            }
            let entry = Entry::parse(&mut reader.object)?;
            let node = entry.actualise(store, depth)?;
            proof {
                let rest = materialise_entries(store@, reader@, depth as nat);
                let item = (entry@.name, node@);
                if rest is Ok {
                    assert(done.push(item) + rest->Ok_0 =~= done + (seq![item] + rest->Ok_0));
                }
                done = done.push(item);
            }
            let ghost prev = out@;
            out.push(WorkEntry { name: entry.name, node });
            proof {
                lemma_entries_view(prev, prev.len());
                lemma_entries_view(out@, out@.len());
                assert(children(out@) =~= done);
            }
        }
    }
}

impl Entry {
    /// The file, directory or link that this entry stands for, with the
    /// content that `store` holds for it.
    pub fn actualise(&self, store: &ObjectStore, depth: usize) -> (r: Result<WorkNode, Error>)
        ensures
            match materialise_entry(store@, self@, depth as nat) {
                Ok(node) => r matches Ok(n) && n@ == node,
                Err(e) => r matches Err(f) && f == e,
            },
        decreases depth, 0int,
    {
        match self.mode {
            Mode::SubMod => {
                return Err(Error::SubmoduleUnsupported);
            },
            _ => {},
        }
        let hash = hex_string(self.hash.as_slice());
        let mut object = ObjReader::from_hash(store, hash.as_str())?;
        match self.mode {
            Mode::Dir => {
                let tree = TreeReader::from_object(object)?;
                if depth == 0 {
                    return Err(Error::TooDeep);
                }
                let entries = tree.actualise_entries(store, depth - 1)?;
                Ok(WorkNode::Dir { entries })
            },
            Mode::SymLink => {
                let target = object.read_to_end()?;
                Ok(WorkNode::SymLink { target })
            },
            Mode::Exe => {
                let content = object.read_to_end()?;
                Ok(WorkNode::File { executable: true, content })
            },
            _ => {
                let content = object.read_to_end()?;
                Ok(WorkNode::File { executable: false, content })
            },
        }
    }
}

} // verus!
