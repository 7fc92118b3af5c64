//! The loose object store as a value: a journal of installed files.

use vstd::prelude::*;

use crate::bytes::{equal, lit, slice_to_vec};
use crate::digest::hex_encode;
use crate::zlib::inflated;

verus! {

/// The journal of a store: its installs, oldest first, each with the name
/// that it was made under and with what the installed file expands to,
/// which is `None` for a file that is no zlib stream.
pub type Log = Seq<(Seq<u8>, Option<Seq<u8>>)>;

/// What a store holds: for each name what the file of that name expands
/// to.
pub type Files = Map<Seq<u8>, Option<Seq<u8>>>;

/// What a journal of installs leaves behind: for each name the content of
/// the last install under that name.
pub open spec fn store_map(log: Log) -> Files
    decreases log.len(),
{
    if log.len() == 0 {
        Map::empty()
    } else {
        store_map(log.drop_last()).insert(log.last().0, log.last().1)
    }
}

/// One installed file.
#[derive(Clone, Debug, PartialEq, Eq)]
pub struct StoredObject {
    /// The name of the object: its digest in hexadecimal.
    pub name: Vec<u8>,
    /// The content of the file: the compressed object.
    pub data: Vec<u8>,
    /// The name of the temporary file that the object is written to before
    /// it is moved into place; `None` for a file that was loaded.
    pub tmp_name: Option<Vec<u8>>,
}

/// The mathematical value of an installed file.
pub struct Slot {
    pub name: Seq<u8>,
    pub data: Seq<u8>,
    pub tmp_name: Option<Seq<u8>>,
}

impl View for StoredObject {
    type V = Slot;

    open spec fn view(&self) -> Slot {
        Slot {
            name: self.name@,
            data: self.data@,
            tmp_name: match self.tmp_name {
                Some(t) => Some(t@),
                None => None,
            },
        }
    }
}

/// The journal that a sequence of installed files stands for.
pub open spec fn journal(slots: Seq<Slot>) -> Log {
    Seq::new(slots.len(), |i: int| (slots[i].name, inflated(slots[i].data)))
}

/// The file that was installed last under `name`, if any was.
pub open spec fn lookup(slots: Seq<Slot>, name: Seq<u8>) -> Option<Seq<u8>>
    decreases slots.len(),
{
    if slots.len() == 0 {
        None
    } else if slots.last().name == name {
        Some(slots.last().data)
    } else {
        lookup(slots.drop_last(), name)
    }
}

/// The name of the temporary file for a nonce: `tmpobj`, then the nonce
/// in hexadecimal.
pub open spec fn tmp_name_of(nonce: Seq<u8>) -> Seq<u8> {
    lit("tmpobj") + hex_encode(nonce)
}

/// Whether `name` is the name of a temporary file: `tmpobj`, then 40
/// hexadecimal digits.
pub open spec fn is_tmp_name(name: Seq<u8>) -> bool {
    exists|nonce: Seq<u8>| nonce.len() == 20 && name == #[trigger] tmp_name_of(nonce)
}

/// Whether `after` is `before` with more installs at its end, each of
/// them made through a temporary file.
pub open spec fn extends(after: Seq<Slot>, before: Seq<Slot>) -> bool {
    &&& before.len() <= after.len()
    &&& after.take(before.len() as int) == before
    &&& forall|i: int|
        before.len() <= i < after.len() ==> ((#[trigger] after[i]).tmp_name matches Some(t)
            && is_tmp_name(t))
}

/// Installs after installs are installs.
pub proof fn lemma_extends_twice(a: Seq<Slot>, b: Seq<Slot>, c: Seq<Slot>)
    requires
        extends(b, a),
        extends(c, b),
    ensures
        extends(c, a),
{
    assert(c.take(a.len() as int) =~= a) by {
        assert forall|i: int| 0 <= i < a.len() implies c[i] == a[i] by {
            assert(c.take(b.len() as int)[i] == c[i]);
            assert(b.take(a.len() as int)[i] == b[i]);
        }
    }
    assert forall|i: int| a.len() <= i < c.len() implies ((#[trigger] c[i]).tmp_name matches Some(
        t,
    ) && is_tmp_name(t)) by {
        if i < b.len() {
            assert(c.take(b.len() as int)[i] == c[i]);
        }
    }
}

/// The last file under a name is what the journal leaves behind under it.
proof fn lemma_lookup(slots: Seq<Slot>, name: Seq<u8>)
    ensures
        lookup(slots, name) is Some <==> store_map(journal(slots)).contains_key(name),
        lookup(slots, name) matches Some(data) ==> store_map(journal(slots))[name] == inflated(
            data,
        ),
    decreases slots.len(),
{
    if slots.len() > 0 {
        assert(journal(slots).drop_last() =~= journal(slots.drop_last()));
        lemma_lookup(slots.drop_last(), name);
    }
}

/// A content-addressed database of compressed objects, keyed by name.
///
/// The store keeps every install in order. A later install under a name
/// replaces an earlier one, as a rename onto an existing path does.
pub struct ObjectStore {
    slots: Vec<StoredObject>,
}

impl View for ObjectStore {
    type V = Files;

    /// What the store holds under each name.
    open spec fn view(&self) -> Files {
        store_map(self.log())
    }
}

impl ObjectStore {
    /// The installs that the store has seen, oldest first.
    pub closed spec fn slots(self) -> Seq<Slot> {
        Seq::new(self.slots@.len(), |i: int| self.slots@[i]@)
    }

    /// The journal of the store.
    pub open spec fn log(self) -> Log {
        journal(self.slots())
    }

    /// An empty store.
    pub fn new() -> (s: ObjectStore)
        ensures
            s.slots() == Seq::<Slot>::empty(),
            s.log() == Seq::<(Seq<u8>, Option<Seq<u8>>)>::empty(),
            s@ == Map::<Seq<u8>, Option<Seq<u8>>>::empty(),
    {
        let s = ObjectStore { slots: Vec::new() };
        assert(s.slots() =~= Seq::<Slot>::empty());
        assert(s.log() =~= Seq::<(Seq<u8>, Option<Seq<u8>>)>::empty());
        s
    }

    /// Puts a file that exists on disk into the store.
    pub fn load(&mut self, name: &str, data: Vec<u8>)
        ensures
            final(self).slots() == old(self).slots().push(
                Slot { name: lit(name), data: data@, tmp_name: None },
            ),
            final(self).log() == old(self).log().push((lit(name), inflated(data@))),
            final(self)@ == old(self)@.insert(lit(name), inflated(data@)),
    {
        let name_bytes = slice_to_vec(name.as_bytes(), 0, name.as_bytes().len());
        assert(name_bytes@ == lit(name));
        self.put(name_bytes, data, None);
    }

    /// Installs `data` under `name`, to be written through the temporary
    /// file `tmp_name`.
    pub fn install(&mut self, name: Vec<u8>, data: Vec<u8>, tmp_name: Vec<u8>)
        ensures
            final(self).slots() == old(self).slots().push(
                Slot { name: name@, data: data@, tmp_name: Some(tmp_name@) },
            ),
            final(self).log() == old(self).log().push((name@, inflated(data@))),
            final(self)@ == old(self)@.insert(name@, inflated(data@)),
    {
        self.put(name, data, Some(tmp_name));
    }

    fn put(&mut self, name: Vec<u8>, data: Vec<u8>, tmp_name: Option<Vec<u8>>)
        ensures
            final(self).slots() == old(self).slots().push(
                (StoredObject { name, data, tmp_name })@,
            ),
            final(self).log() == old(self).log().push((name@, inflated(data@))),
            final(self)@ == old(self)@.insert(name@, inflated(data@)),
    {
        let ghost slot = (StoredObject { name, data, tmp_name })@;
        self.slots.push(StoredObject { name, data, tmp_name });
        assert(final(self).slots() =~= old(self).slots().push(slot));
        assert(final(self).log() =~= old(self).log().push((name@, inflated(data@))));
        assert(final(self).log().drop_last() =~= old(self).log());
    }

    /// The file that was installed last under `name`, if any was.
    pub fn get(&self, name: &[u8]) -> (r: Option<&Vec<u8>>)
        ensures
            match lookup(self.slots(), name@) {
                Some(data) => r matches Some(d) && d@ == data,
                None => r is None,
            },
            r is Some <==> self@.contains_key(name@),
            r matches Some(data) ==> inflated(data@) == self@[name@],
    {
        proof {
            lemma_lookup(self.slots(), name@);
            assert(self.slots().take(self.slots().len() as int) =~= self.slots());
        }
        let mut i: usize = self.slots.len();
        while i > 0
            invariant
                i <= self.slots.len(),
                lookup(self.slots(), name@) == lookup(self.slots().take(i as int), name@),
            decreases i,
        {
            let ghost prefix = self.slots().take(i as int);
            assert(prefix.last() == self.slots@[i - 1]@);
            assert(prefix.drop_last() =~= self.slots().take(i - 1));
            i = i - 1;
            if equal(self.slots[i].name.as_slice(), name) {
                proof {
                    lemma_lookup(self.slots(), name@);
                }
                return Some(&self.slots[i].data);
            }
        }
        None
    }

    /// The number of installs that the store has seen.
    pub fn len(&self) -> (n: usize)
        ensures
            n == self.slots().len(),
            n == self.log().len(),
    {
        self.slots.len()
    }

    /// The `i`-th install.
    pub fn slot(&self, i: usize) -> (r: &StoredObject)
        requires
            i < self.slots().len(),
        ensures
            r@ == self.slots()[i as int],
    {
        &self.slots[i]
    }
}

} // verus!
