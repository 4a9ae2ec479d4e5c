//! The table of connections a node keeps: for every socket it knows, the
//! address that socket's node listens on, where that differs from the socket.
use vstd::prelude::*;

verus! {

/// The view of an optional string.
pub open spec fn opt_view(o: Option<String>) -> Option<Seq<char>> {
    match o {
        Some(s) => Some(s@),
        None => None,
    }
}

/// True when no socket occurs twice in `entries`.
pub open spec fn sockets_distinct(entries: Seq<(Seq<char>, Option<Seq<char>>)>) -> bool {
    forall|i: int, j: int|
        0 <= i < j < entries.len() ==> #[trigger] entries[i].0 != #[trigger] entries[j].0
}

/// The index of `socket` in `entries`, if it occurs there.
pub open spec fn index_of(entries: Seq<(Seq<char>, Option<Seq<char>>)>, socket: Seq<char>) -> Option<int> {
    if exists|i: int| 0 <= i < entries.len() && #[trigger] entries[i].0 == socket {
        Some(choose|i: int| 0 <= i < entries.len() && #[trigger] entries[i].0 == socket)
    } else {
        None
    }
}

/// The table as a map from socket to listening address.
pub open spec fn entries_map(entries: Seq<(Seq<char>, Option<Seq<char>>)>) -> Map<Seq<char>, Option<Seq<char>>> {
    Map::new(
        |k: Seq<char>| index_of(entries, k) is Some,
        |k: Seq<char>| entries[index_of(entries, k)->0].1,
    )
}

/// What inserting `socket` with `listen` does to the entries: the entry of
/// that socket changes in place where there is one, else a new entry comes
/// last.
pub open spec fn entries_insert(
    entries: Seq<(Seq<char>, Option<Seq<char>>)>,
    socket: Seq<char>,
    listen: Option<Seq<char>>,
) -> Seq<(Seq<char>, Option<Seq<char>>)> {
    match index_of(entries, socket) {
        Some(i) => entries.update(i, (socket, listen)),
        None => entries.push((socket, listen)),
    }
}

/// The connections a node knows, in the order they were first added.  No
/// socket occurs twice.
#[derive(Debug)]
pub struct Connections {
    entries: Vec<(String, Option<String>)>,
}

impl Connections {
    /// The entries, in order, as text.
    pub closed spec fn entries(&self) -> Seq<(Seq<char>, Option<Seq<char>>)> {
        Seq::new(self.entries@.len(), |i: int| (self.entries@[i].0@, opt_view(self.entries@[i].1)))
    }

    #[verifier::type_invariant]
    pub open spec fn wf(&self) -> bool {
        sockets_distinct(self.entries())
    }

    /// An empty table.
    pub fn new() -> (r: Connections)
        ensures
            r.entries() == Seq::<(Seq<char>, Option<Seq<char>>)>::empty(),
            sockets_distinct(r.entries()),
    {
        let r = Connections { entries: Vec::new() };
        assert(r.entries() =~= Seq::<(Seq<char>, Option<Seq<char>>)>::empty());
        r
    }

    /// The number of sockets in the table.
    pub fn len(&self) -> (r: usize)
        ensures
            r == self.entries().len(),
    {
        self.entries.len()
    }

    /// Whether the table is empty.
    pub fn is_empty(&self) -> (r: bool)
        ensures
            r == (self.entries().len() == 0),
    {
        self.entries.len() == 0
    }

    /// The socket of the `i`th entry.
    pub fn socket(&self, i: usize) -> (r: &String)
        requires
            i < self.entries().len(),
        ensures
            r@ == self.entries()[i as int].0,
    {
        &self.entries[i].0
    }

    /// The listening address of the `i`th entry, where it has one.
    pub fn listen_address(&self, i: usize) -> (r: &Option<String>)
        requires
            i < self.entries().len(),
        ensures
            opt_view(*r) == self.entries()[i as int].1,
    {
        &self.entries[i].1
    }

    /// The index of `socket` in the table, if it is there.
    pub fn find(&self, socket: &String) -> (r: Option<usize>)
        ensures
            match r {
                Some(i) => index_of(self.entries(), socket@) == Some(i as int),
                None => index_of(self.entries(), socket@) is None,
            },
    {
        proof {
            use_type_invariant(self);
        }
        let mut i: usize = 0;
        while i < self.entries.len()
            invariant
                i <= self.entries@.len(),
                self.entries().len() == self.entries@.len(),
                sockets_distinct(self.entries()),
                forall|j: int| 0 <= j < i ==> #[trigger] self.entries()[j].0 != socket@,
            decreases self.entries@.len() - i,
        {
            if self.entries[i].0 == *socket {
                assert(self.entries()[i as int].0 == socket@);
                let ghost c = choose|k: int|
                    0 <= k < self.entries().len() && #[trigger] self.entries()[k].0 == socket@;
                assert(c == i);
                return Some(i);
            }
            i = i + 1;
        }
        None
    }

    /// Records that `socket` is connected, and the address its node listens
    /// on where that differs from the socket.  A socket already in the table
    /// keeps its place and gets the new address.
    pub fn insert(&mut self, socket: String, listen: Option<String>)
        ensures
            final(self).entries() == entries_insert(old(self).entries(), socket@, opt_view(listen)),
            sockets_distinct(old(self).entries()),
            sockets_distinct(final(self).entries()),
    {
        proof {
            use_type_invariant(&*self);
        }
        let found = self.find(&socket);
        let ghost old_entries = self.entries();
        let ghost new_entry = (socket@, opt_view(listen));
        let mut entries: Vec<(String, Option<String>)> = Vec::new();
        std::mem::swap(&mut entries, &mut self.entries);
        match found {
            Some(i) => {
                entries.set(i, (socket, listen));
            },
            None => {
                entries.push((socket, listen));
            },
        }
        let ghost new_entries = Seq::new(
            entries@.len(),
            |k: int| (entries@[k].0@, opt_view(entries@[k].1)),
        );
        assert(new_entries =~= entries_insert(old_entries, new_entry.0, new_entry.1));
        assert(sockets_distinct(new_entries));
        self.entries = entries;
        assert(self.entries() =~= new_entries);
    }
}

/// Inserting into the table acts on its map as inserting into a map does,
/// and keeps the sockets distinct.
pub proof fn lemma_insert_map(
    entries: Seq<(Seq<char>, Option<Seq<char>>)>,
    socket: Seq<char>,
    listen: Option<Seq<char>>,
)
    requires
        sockets_distinct(entries),
    ensures
        sockets_distinct(entries_insert(entries, socket, listen)),
        entries_map(entries_insert(entries, socket, listen)) == entries_map(entries).insert(
            socket,
            listen,
        ),
{
    let after = entries_insert(entries, socket, listen);
    assert(sockets_distinct(after));
    assert forall|k: Seq<char>| #[trigger] entries_map(after).contains_key(k) <==> entries_map(entries).insert(socket, listen).contains_key(k) by {
        if k != socket {
            if index_of(entries, k) is Some {
                let i = index_of(entries, k)->0;
                assert(after[i].0 == k);
            }
            if index_of(after, k) is Some {
                let i = index_of(after, k)->0;
                assert(i < entries.len());
                assert(entries[i].0 == k);
            }
        } else {
            match index_of(entries, socket) {
                Some(i) => assert(after[i].0 == socket),
                None => assert(after[entries.len() as int].0 == socket),
            }
        }
    }
    assert forall|k: Seq<char>| #[trigger] entries_map(after).contains_key(k) implies entries_map(after)[k] == entries_map(entries).insert(socket, listen)[k] by {
        let j = index_of(after, k)->0;
        if k != socket {
            let i = index_of(entries, k)->0;
            assert(after[i].0 == k);
            assert(i == j);
        } else {
            match index_of(entries, socket) {
                Some(i) => {
                    assert(after[i].0 == socket);
                    assert(i == j);
                },
                None => {
                    assert(after[entries.len() as int].0 == socket);
                    assert(j == entries.len());
                },
            }
        }
    }
    assert(entries_map(after) =~= entries_map(entries).insert(socket, listen));
}

/// Inserting never removes a socket: every socket known before is known
/// after, the inserted one too, and every entry after is either an entry
/// from before or the inserted one.
pub proof fn lemma_insert_keeps(
    entries: Seq<(Seq<char>, Option<Seq<char>>)>,
    socket: Seq<char>,
    listen: Option<Seq<char>>,
)
    ensures
        forall|k: Seq<char>|
            #[trigger] index_of(entries, k) is Some ==> index_of(
                entries_insert(entries, socket, listen),
                k,
            ) is Some,
        index_of(entries_insert(entries, socket, listen), socket) is Some,
        forall|i: int|
            0 <= i < entries_insert(entries, socket, listen).len() ==> #[trigger] entries_insert(
                entries,
                socket,
                listen,
            )[i] == (socket, listen) || (i < entries.len() && entries_insert(entries, socket, listen)[i]
                == entries[i]),
{
    let after = entries_insert(entries, socket, listen);
    assert forall|k: Seq<char>| #[trigger] index_of(entries, k) is Some implies index_of(after, k) is Some by {
        let i = index_of(entries, k)->0;
        if k == socket {
            match index_of(entries, socket) {
                Some(j) => assert(after[j].0 == k),
                None => {},
            }
        } else {
            assert(after[i].0 == k);
        }
    }
    match index_of(entries, socket) {
        Some(j) => assert(after[j].0 == socket),
        None => assert(after[entries.len() as int].0 == socket),
    }
}

} // verus!
