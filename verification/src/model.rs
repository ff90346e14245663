//! Plain data that requests and routing results are made of.

use vstd::prelude::*;

verus! {

/// The contents of a list of names, each name as its sequence of characters.
pub open spec fn texts(names: Seq<String>) -> Seq<Seq<char>> {
    names.map_values(|n: String| n@)
}

/// The names of a list of write entries, in the order of the entries.
pub open spec fn entry_names<E>(entries: Seq<(String, E)>) -> Seq<String> {
    entries.map_values(|e: (String, E)| e.0)
}

/// Whether an entry under `name` occurs in `entries`.
pub open spec fn names_entry<E>(entries: Seq<(String, E)>, name: Seq<char>) -> bool {
    exists|i: int| 0 <= i < entries.len() && (#[trigger] entries[i]).0@ == name
}

/// No two entries carry the same name.
pub open spec fn distinct_names<E>(entries: Seq<(String, E)>) -> bool {
    forall|i: int, j: int|
        0 <= i < j < entries.len() ==> (#[trigger] entries[i]).0@ != (#[trigger] entries[j]).0@
}

/// Network address of one node of the cluster.
///
/// Two endpoints are the same node exactly when their addresses are the same
/// text; the view of an endpoint is that text.
#[derive(Debug, Clone, PartialEq, Eq, Hash)]
pub struct Endpoint {
    pub addr: String,
}

impl View for Endpoint {
    type V = Seq<char>;

    open spec fn view(&self) -> Seq<char> {
        self.addr@
    }
}

impl Endpoint {
    pub fn new(addr: String) -> (ep: Endpoint)
        ensures
            ep.addr == addr,
    {
        Endpoint { addr }
    }

    /// The address as text, the form in which a node is dialled.
    pub fn as_str(&self) -> (s: &str)
        ensures
            s@ == self@,
    {
        self.addr.as_str()
    }

    /// Whether both endpoints name the same node.
    pub fn same_node(&self, other: &Endpoint) -> (same: bool)
        ensures
            same == (self@ == other@),
    {
        self.addr == other.addr
    }
}

/// Row counts reported for a write: rows written and rows rejected.
#[derive(Debug, Clone, Copy, PartialEq, Eq, Structural)]
pub struct WriteResponse {
    pub success: u32,
    pub failed: u32,
}

impl WriteResponse {
    pub fn new(success: u32, failed: u32) -> (resp: WriteResponse)
        ensures
            resp.success == success,
            resp.failed == failed,
    {
        WriteResponse { success, failed }
    }
}

impl Default for WriteResponse {
    fn default() -> (resp: WriteResponse)
        ensures
            resp.success == 0,
            resp.failed == 0,
    {
        WriteResponse { success: 0, failed: 0 }
    }
}

/// A query over the metrics it names.
#[derive(Debug, Clone)]
pub struct QueryRequest {
    pub metrics: Vec<String>,
    pub ql: String,
}

/// A write: one payload per metric name, names unique within the request.
///
/// `E` is the payload written under a name; the request never looks inside it.
/// Entries keep the order in which their names were first inserted, and the
/// view of a request is that ordered list of `(name, payload)` pairs.
#[derive(Debug)]
pub struct WriteRequest<E> {
    write_entries: Vec<(String, E)>,
}

impl<E> View for WriteRequest<E> {
    type V = Seq<(String, E)>;

    closed spec fn view(&self) -> Seq<(String, E)> {
        self.write_entries@
    }
}

impl<E> WriteRequest<E> {
    #[verifier::type_invariant]
    spec fn names_are_unique(self) -> bool {
        distinct_names(self.write_entries@)
    }

    /// The request without entries.
    pub fn new() -> (req: Self)
        ensures
            req@ == Seq::<(String, E)>::empty(),
    {
        WriteRequest { write_entries: Vec::new() }
    }

    pub fn len(&self) -> (n: usize)
        ensures
            n == self@.len(),
    {
        self.write_entries.len()
    }

    pub fn is_empty(&self) -> (empty: bool)
        ensures
            empty == (self@.len() == 0),
    {
        self.write_entries.len() == 0
    }

    /// Position of the entry under `name`, if there is one.
    pub fn position(&self, name: &String) -> (at: Option<usize>)
        ensures
            at matches Some(i) ==> i < self@.len() && self@[i as int].0@ == name@,
            at is None ==> !names_entry(self@, name@),
    {
        let mut i: usize = 0;
        while i < self.write_entries.len()
            invariant
                i <= self.write_entries.len(),
                forall|k: int| 0 <= k < i ==> (#[trigger] self.write_entries@[k]).0@ != name@,
            decreases self.write_entries.len() - i,
        {
            if self.write_entries[i].0 == *name {
                return Some(i);
            }
            i += 1;
        }
        None
    }

    /// The payload written under `name`, if there is one.
    pub fn get(&self, name: &String) -> (entry: Option<&E>)
        ensures
            entry matches Some(e) ==> exists|i: int|
                0 <= i < self@.len() && (#[trigger] self@[i]).0@ == name@ && self@[i].1 == *e,
            entry is None <==> !names_entry(self@, name@),
    {
        match self.position(name) {
            Some(i) => Some(&self.write_entries[i].1),
            None => None,
        }
    }

    /// Puts `entry` under `name`. An entry already under that name keeps its
    /// place, gives up its payload to the caller and takes the new one;
    /// otherwise the new entry goes to the end.
    pub fn insert(&mut self, name: String, entry: E) -> (previous: Option<E>)
        ensures
            names_entry(old(self)@, name@) ==> exists|i: int|
                0 <= i < old(self)@.len() && (#[trigger] old(self)@[i]).0@ == name@
                    && previous == Some(old(self)@[i].1)
                    && final(self)@ == old(self)@.update(i, (name, entry)),
            !names_entry(old(self)@, name@) ==> previous is None
                && final(self)@ == old(self)@.push((name, entry)),
    {
        proof {
            use_type_invariant(&*self);
        }
        let found = self.position(&name);
        let mut entries: Vec<(String, E)> = Vec::new();
        std::mem::swap(&mut entries, &mut self.write_entries);
        let ghost before = entries@;
        let previous = match found {
            Some(i) => {
                let old_entry = entries.remove(i);
                entries.insert(i, (name, entry));
                assert(entries@ =~= before.update(i as int, (name, entry)));
                Some(old_entry.1)
            },
            None => {
                entries.push((name, entry));
                None
            },
        };
        self.write_entries = entries;
        previous
    }

    /// Adds an entry under a name that the request does not hold yet.
    pub(crate) fn push_new(&mut self, name: String, entry: E)
        requires
            !names_entry(old(self)@, name@),
        ensures
            final(self)@ == old(self)@.push((name, entry)),
    {
        proof {
            use_type_invariant(&*self);
        }
        let mut entries: Vec<(String, E)> = Vec::new();
        std::mem::swap(&mut entries, &mut self.write_entries);
        entries.push((name, entry));
        self.write_entries = entries;
    }

    /// The names of the request, in entry order.
    pub fn names(&self) -> (names: Vec<String>)
        ensures
            names@ == entry_names(self@),
    {
        let mut names: Vec<String> = Vec::new();
        let mut i: usize = 0;
        while i < self.write_entries.len()
            invariant
                i <= self.write_entries.len(),
                names@ == entry_names(self.write_entries@.take(i as int)),
            decreases self.write_entries.len() - i,
        {
            names.push(self.write_entries[i].0.clone());
            assert(self.write_entries@.take(i + 1) == self.write_entries@.take(i as int).push(
                self.write_entries@[i as int],
            ));
            i += 1;
        }
        assert(self.write_entries@.take(i as int) == self.write_entries@);
        names
    }

    /// Hands out the entries, in order.
    pub fn into_entries(self) -> (entries: Vec<(String, E)>)
        ensures
            entries@ == self@,
            distinct_names(entries@),
    {
        proof {
            use_type_invariant(&self);
        }
        self.write_entries
    }
}

impl<E: Clone> Clone for WriteRequest<E> {
    /// A request with the same names in the same order, each payload a clone
    /// of the payload under that name.
    fn clone(&self) -> (req: Self)
        ensures
            entry_names(req@) == entry_names(self@),
            forall|i: int| 0 <= i < self@.len() ==> cloned(self@[i].1, #[trigger] req@[i].1),
    {
        proof {
            use_type_invariant(self);
        }
        let mut entries: Vec<(String, E)> = Vec::new();
        let mut i: usize = 0;
        while i < self.write_entries.len()
            invariant
                i <= self.write_entries.len(),
                entries@.len() == i,
                forall|k: int|
                    0 <= k < i ==> (#[trigger] entries@[k]).0 == self.write_entries@[k].0 && cloned(
                        self.write_entries@[k].1,
                        entries@[k].1,
                    ),
            decreases self.write_entries.len() - i,
        {
            let name = self.write_entries[i].0.clone();
            let entry = self.write_entries[i].1.clone();
            entries.push((name, entry));
            i += 1;
        }
        assert(entry_names(entries@) =~= entry_names(self.write_entries@));
        WriteRequest { write_entries: entries }
    }
}

impl<E> Default for WriteRequest<E> {
    fn default() -> (req: Self)
        ensures
            req@ == Seq::<(String, E)>::empty(),
    {
        WriteRequest::new()
    }
}

} // verus!
