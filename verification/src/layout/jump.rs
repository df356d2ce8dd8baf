//! Jump target ids: assigned by the layout, read by the renderer, resolved
//! for the editor.

use vstd::prelude::*;

use crate::collections::{str_eq, StrMap};

verus! {

/// Identifies one entry in a [`JumpTable`].
#[derive(Clone, Copy, Debug, PartialEq, Eq, Structural)]
pub struct LocationId(usize);

impl LocationId {
    /// The number the id stands for.
    pub closed spec fn index(self) -> usize {
        self.0
    }

    /// The id a query number names; `resolve` still rejects one past the end.
    pub fn from(id: usize) -> (res: Self)
        ensures
            res.index() == id,
    {
        LocationId(id)
    }
}

/// Which file a jump target resolves to.
#[derive(Clone, Copy, Debug, PartialEq, Eq, Structural)]
pub enum TargetKind {
    Lib,
    Bin,
    Manifest,
    Module,
}

/// A file and a line a jump target resolves to.
#[derive(Debug, PartialEq)]
pub struct Location {
    pub file: String,
    pub line: usize,
}

/// One jump target on a layout item: its kind, the path shown, and the id
/// it resolves through.
#[derive(Debug, PartialEq, Eq)]
pub struct JumpTarget {
    pub kind: TargetKind,
    pub name: String,
    pub id: LocationId,
}

/// Assigns ids to jump targets as a running counter and remembers each
/// target; also keeps which node a file belongs to.
#[derive(Debug)]
pub struct JumpTable {
    entries: Vec<Location>,
    node_files: StrMap<String>,
}

/// The node-file map as plain values.
pub open spec fn node_map_view(m: Map<Seq<char>, String>) -> Map<Seq<char>, Seq<char>> {
    m.map_values(|s: String| s@)
}

/// `files` after registering `node` for the file of every id of `ids` that
/// stands in `entries`, in order.
pub open spec fn registered(
    files: Map<Seq<char>, Seq<char>>,
    entries: Seq<(Seq<char>, usize)>,
    node: Seq<char>,
    ids: Seq<LocationId>,
) -> Map<Seq<char>, Seq<char>>
    decreases ids.len(),
{
    if ids.len() == 0 {
        files
    } else {
        let before = registered(files, entries, node, ids.drop_last());
        let id = ids.last().index();
        if id < entries.len() {
            before.insert(entries[id as int].0, node)
        } else {
            before
        }
    }
}

impl JumpTable {
    /// The entries as (file, line) pairs, in id order.
    pub closed spec fn entries_view(&self) -> Seq<(Seq<char>, usize)> {
        self.entries@.map_values(|l: Location| (l.file@, l.line))
    }

    /// File → the key of the node it belongs to.
    pub closed spec fn files_view(&self) -> Map<Seq<char>, Seq<char>> {
        node_map_view(self.node_files@)
    }

    /// An empty table.
    pub fn new() -> (res: Self)
        ensures
            res.entries_view() == Seq::<(Seq<char>, usize)>::empty(),
            res.files_view() == Map::<Seq<char>, Seq<char>>::empty(),
    {
        let res = JumpTable { entries: Vec::new(), node_files: StrMap::new() };
        assert(res.entries_view() =~= Seq::<(Seq<char>, usize)>::empty());
        assert(res.files_view() =~= Map::<Seq<char>, Seq<char>>::empty());
        res
    }

    /// Insert a jump target; its id is the number of targets before it.
    pub fn insert(&mut self, file: String, line: usize) -> (res: LocationId)
        ensures
            res.index() == old(self).entries_view().len(),
            final(self).entries_view() == old(self).entries_view().push((file@, line)),
            final(self).files_view() == old(self).files_view(),
    {
        let id = LocationId(self.entries.len());
        let ghost f = file@;
        self.entries.push(Location { file, line });
        assert(self.entries_view() =~= old(self).entries_view().push((f, line)));
        id
    }

    /// The location of a previously inserted target.
    pub fn resolve(&self, id: LocationId) -> (res: Option<&Location>)
        ensures
            res matches Some(l) ==> id.index() < self.entries_view().len() && (l.file@, l.line)
                == self.entries_view()[id.index() as int],
            res is None ==> id.index() >= self.entries_view().len(),
    {
        if id.0 < self.entries.len() {
            Some(&self.entries[id.0])
        } else {
            None
        }
    }

    /// Record that the files behind `ids` belong to the node keyed `node`;
    /// an id past the end registers nothing.
    pub fn insert_node_files(&mut self, node: &str, ids: &[LocationId])
        ensures
            final(self).entries_view() == old(self).entries_view(),
            final(self).files_view() == registered(
                old(self).files_view(),
                old(self).entries_view(),
                node@,
                ids@,
            ),
    {
        let mut i: usize = 0;
        while i < ids.len()
            invariant
                i <= ids@.len(),
                self.entries_view() == old(self).entries_view(),
                self.files_view() == registered(
                    old(self).files_view(),
                    old(self).entries_view(),
                    node@,
                    ids@.take(i as int),
                ),
            decreases ids.len() - i,
        {
            let id = ids[i];
            proof {
                assert(ids@.take(i + 1).drop_last() =~= ids@.take(i as int));
                assert(ids@.take(i + 1).last() == id);
            }
            if id.0 < self.entries.len() {
                let file = self.entries[id.0].file.clone();
                let ghost fv = file@;
                assert(fv == self.entries_view()[id.0 as int].0);
                let ghost before = self.node_files@;
                self.node_files.insert(file, node.to_string());
                assert(self.files_view() =~= node_map_view(before).insert(fv, node@));
            }
            i = i + 1;
        }
        assert(ids@.take(ids@.len() as int) =~= ids@);
    }

    /// The key of the node `file` belongs to, as registered.
    pub fn node_at(&self, file: &str) -> (res: Option<&str>)
        ensures
            res matches Some(n) ==> self.files_view().dom().contains(file@) && n@
                == self.files_view()[file@],
            res is None ==> !self.files_view().dom().contains(file@),
    {
        match self.node_files.get(file) {
            Some(n) => Some(n.as_str()),
            None => None,
        }
    }

    /// Every id whose target is `line` of `file`, in insertion order.
    pub fn ids_at(&self, file: &str, line: usize) -> (res: Vec<LocationId>)
        ensures
            res@.map_values(|id: LocationId| id.index() as int) == Seq::new(
                self.entries_view().len(),
                |i: int| i,
            ).filter(|i: int| self.entries_view()[i] == (file@, line)),
    {
        let mut res: Vec<LocationId> = Vec::new();
        let mut i: usize = 0;
        let ghost ev = self.entries_view();
        let ghost idx = Seq::new(ev.len(), |i: int| i);
        let ghost keep = |i: int| ev[i] == (file@, line);
        while i < self.entries.len()
            invariant
                i <= self.entries@.len(),
                ev == self.entries_view(),
                ev.len() == self.entries@.len(),
                idx == Seq::new(ev.len(), |i: int| i),
                keep == (|i: int| ev[i] == (file@, line)),
                res@.map_values(|id: LocationId| id.index() as int) == idx.take(i as int).filter(keep),
            decreases self.entries.len() - i,
        {
            let ghost before = res@.map_values(|id: LocationId| id.index() as int);
            assert(idx.take(i + 1) =~= idx.take(i as int).push(i as int));
            proof {
                idx.take(i as int).lemma_filter_push(i as int, keep);
            }
            assert(ev[i as int] == (self.entries@[i as int].file@, self.entries@[i as int].line));
            if self.entries[i].line == line && str_eq(self.entries[i].file.as_str(), file) {
                res.push(LocationId(i));
                assert(res@.map_values(|id: LocationId| id.index() as int) =~= before.push(i as int));
            } else {
                assert(res@.map_values(|id: LocationId| id.index() as int) =~= before);
            }
            i = i + 1;
        }
        assert(idx.take(ev.len() as int) =~= idx);
        res
    }
}

/// Reading a target back gives what was inserted, under the id the insert
/// returned; inserting changes no earlier target.
pub proof fn lemma_insert_then_resolve(before: Seq<(Seq<char>, usize)>, after: Seq<(Seq<char>, usize)>, id: LocationId, file: Seq<char>, line: usize)
    requires
        id.index() == before.len(),
        after == before.push((file, line)),
    ensures
        id.index() < after.len(),
        after[id.index() as int] == (file, line),
        forall|i: int| 0 <= i < before.len() ==> after[i] == before[i],
{
}

} // verus!
