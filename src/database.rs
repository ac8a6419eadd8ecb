//! A registry of tables by name.
use vstd::prelude::*;
use crate::table::Table;

verus! {

/// Named tables; each name occurs once.
pub struct Database {
    tables: Vec<(String, Table)>,
}

impl Database {
    /// The names, in the order in which they were first created.
    pub closed spec fn names(&self) -> Seq<Seq<char>> {
        self.tables@.map_values(|e: (String, Table)| e.0@)
    }

    /// The table registered under `name`, if any.
    pub closed spec fn table(&self, name: Seq<char>) -> Option<Table> {
        if exists|i: int| 0 <= i < self.tables@.len() && self.tables@[i].0@ == name {
            let i = choose|i: int| 0 <= i < self.tables@.len() && self.tables@[i].0@ == name;
            Some(self.tables@[i].1)
        } else {
            None
        }
    }

    pub closed spec fn wf(&self) -> bool {
        &&& forall|i: int, j: int|
            0 <= i < j < self.tables@.len() ==> self.tables@[i].0@ != self.tables@[j].0@
        &&& forall|i: int| 0 <= i < self.tables@.len() ==> (#[trigger] self.tables@[i]).1.wf()
    }

    /// A database with no table.
    pub fn open() -> (r: Database)
        ensures
            r.wf(),
            forall|name: Seq<char>| r.table(name) is None,
    {
        Database { tables: Vec::new() }
    }

    fn position(&self, name: &str) -> (r: Option<usize>)
        requires
            self.wf(),
        ensures
            match r {
                Some(i) => i < self.tables@.len() && self.tables@[i as int].0@ == name@
                    && self.table(name@) == Some(self.tables@[i as int].1),
                None => self.table(name@) is None,
            },
    {
        let target = name.to_owned();
        let mut i: usize = 0;
        while i < self.tables.len()
            invariant
                self.wf(),
                target@ == name@,
                i <= self.tables@.len(),
                forall|j: int| 0 <= j < i ==> self.tables@[j].0@ != name@,
            decreases self.tables@.len() - i,
        {
            if self.tables[i].0 == target {
                return Some(i);
            }
            i = i + 1;
        }
        None
    }

    /// Registers `table` under `name`, replacing a table of that name.
    pub fn create_table(&mut self, name: &str, table: Table)
        requires
            old(self).wf(),
            table.wf(),
        ensures
            final(self).wf(),
            final(self).table(name@) == Some(table),
            forall|n: Seq<char>| n != name@ ==> final(self).table(n) == old(self).table(n),
    {
        match self.position(name) {
            Some(i) => {
                let entry = (name.to_owned(), table);
                self.tables.set(i, entry);
                assert forall|n: Seq<char>| n != name@ implies self.table(n) == old(self).table(n) by {
                    if exists|j: int| 0 <= j < old(self).tables@.len() && old(self).tables@[j].0@ == n {
                        let j = choose|j: int| 0 <= j < old(self).tables@.len() && old(self).tables@[j].0@ == n;
                        assert(self.tables@[j].0@ == n);
                    }
                };
                assert(self.tables@[i as int].0@ == name@);
            },
            None => {
                let entry = (name.to_owned(), table);
                self.tables.push(entry);
                let ghost last = self.tables@.len() - 1;
                assert(self.tables@[last].0@ == name@);
                assert forall|n: Seq<char>| n != name@ implies self.table(n) == old(self).table(n) by {
                    if exists|j: int| 0 <= j < old(self).tables@.len() && old(self).tables@[j].0@ == n {
                        let j = choose|j: int| 0 <= j < old(self).tables@.len() && old(self).tables@[j].0@ == n;
                        assert(self.tables@[j].0@ == n);
                    }
                };
            },
        }
    }

    /// `self` is `before` with the table under `name` replaced by `t`.
    pub closed spec fn replaced_from(&self, before: Database, name: Seq<char>, t: Table) -> bool {
        exists|i: int|
            0 <= i < before.tables@.len() && (#[trigger] before.tables@[i]).0@ == name
                && self.tables@ == before.tables@.update(i, (before.tables@[i].0, t))
    }

    /// Replacing one table keeps every other name as it was.
    pub proof fn lemma_replaced(&self, before: Database, name: Seq<char>, t: Table)
        requires
            before.wf(),
            self.replaced_from(before, name, t),
        ensures
            t.wf() ==> self.wf(),
            self.table(name) == Some(t),
            forall|n: Seq<char>| n != name ==> self.table(n) == before.table(n),
    {
        let i = choose|i: int|
            0 <= i < before.tables@.len() && (#[trigger] before.tables@[i]).0@ == name
                && self.tables@ == before.tables@.update(i, (before.tables@[i].0, t));
        assert(self.tables@[i].0@ == name);
        assert forall|n: Seq<char>| n != name implies self.table(n) == before.table(n) by {
            if exists|j: int| 0 <= j < before.tables@.len() && before.tables@[j].0@ == n {
                let j = choose|j: int| 0 <= j < before.tables@.len() && before.tables@[j].0@ == n;
                assert(self.tables@[j].0@ == n);
            }
        };
    }

    /// The table registered under `name`, to be changed in place; `None` for a
    /// name never created. Once the borrow ends, `lemma_replaced` tells what
    /// the database holds.
    pub fn get_table_mut(&mut self, name: &str) -> (r: Option<&mut Table>)
        requires
            old(self).wf(),
        ensures
            match old(self).table(name@) {
                Some(t) => r matches Some(x) && *x == t && x.wf()
                    && final(self).replaced_from(*old(self), name@, *final(x)),
                None => r is None && *final(self) == *old(self),
            },
    {
        match self.position(name) {
            Some(i) => Some(&mut self.tables[i].1),
            None => None,
        }
    }

    /// The table registered under `name`; `None` for a name never created.
    pub fn get_table(&self, name: &str) -> (r: Option<&Table>)
        requires
            self.wf(),
        ensures
            match self.table(name@) {
                Some(t) => r matches Some(x) && *x == t && x.wf(),
                None => r is None,
            },
    {
        match self.position(name) {
            Some(i) => Some(&self.tables[i].1),
            None => None,
        }
    }
}

} // verus!
