//! Rows that keep every column of their file, and the per-key entities that
//! combine the rows of several tables.
use vstd::prelude::*;

use crate::assoc::{
    assoc_map, is_last_for_key, lemma_assoc_absent, lemma_assoc_last, lemma_assoc_update_last,
};

verus! {

/// What a row stands for: its key and its cells by header.
pub struct RowView {
    pub key: Seq<char>,
    pub cells: Map<Seq<char>, Seq<char>>,
}

/// One record of a table: its key, and the raw text of each cell by header.
/// A later entry for a header replaces an earlier one.
#[derive(Debug)]
pub struct DynRow {
    pub key: String,
    pub cells: Vec<(String, String)>,
}

/// The cells of a row as (header, text) pairs.
pub open spec fn cell_entries(cells: Seq<(String, String)>) -> Seq<(Seq<char>, Seq<char>)> {
    cells.map_values(|p: (String, String)| (p.0@, p.1@))
}

impl View for DynRow {
    type V = RowView;

    open spec fn view(&self) -> RowView {
        RowView { key: self.key@, cells: assoc_map(cell_entries(self.cells@)) }
    }
}

impl Clone for DynRow {
    fn clone(&self) -> (r: Self)
        ensures
            r.key == self.key,
            r.cells@ == self.cells@,
            r@ == self@,
    {
        let mut cells: Vec<(String, String)> = Vec::new();
        let mut i: usize = 0;
        while i < self.cells.len()
            invariant
                i <= self.cells.len(),
                cells@ == self.cells@.take(i as int),
            decreases self.cells.len() - i,
        {
            let h = self.cells[i].0.clone();
            let v = self.cells[i].1.clone();
            cells.push((h, v));
            assert(cells@ =~= self.cells@.take(i + 1));
            i += 1;
        }
        assert(cells@ =~= self.cells@);
        DynRow { key: self.key.clone(), cells }
    }
}

impl DynRow {
    /// A row with the given key and no cells.
    pub fn new(key: String) -> (r: DynRow)
        ensures
            r@.key == key@,
            r@.cells == Map::<Seq<char>, Seq<char>>::empty(),
    {
        DynRow { key, cells: Vec::new() }
    }

    /// The index of the last cell entry for `header`.
    fn position(&self, header: &String) -> (r: Option<usize>)
        ensures
            match r {
                Some(i) => is_last_for_key(cell_entries(self.cells@), i as int) && cell_entries(
                    self.cells@,
                )[i as int].0 == header@,
                None => forall|j: int|
                    0 <= j < self.cells.len() ==> (#[trigger] cell_entries(self.cells@)[j]).0
                        != header@,
            },
    {
        let ghost e = cell_entries(self.cells@);
        let mut i: usize = self.cells.len();
        while i > 0
            invariant
                i <= self.cells.len(),
                e == cell_entries(self.cells@),
                forall|j: int| i <= j < self.cells.len() ==> (#[trigger] e[j]).0 != header@,
            decreases i,
        {
            i -= 1;
            if self.cells[i].0 == *header {
                return Some(i);
            }
        }
        None
    }

    /// The text of the cell under `header`, if the row has one.
    pub fn get(&self, header: &str) -> (r: Option<&str>)
        ensures
            match r {
                Some(v) => self@.cells.contains_key(header@) && v@ == self@.cells[header@],
                None => !self@.cells.contains_key(header@),
            },
    {
        let h = header.to_owned();
        match self.position(&h) {
            Some(i) => {
                proof {
                    lemma_assoc_last(cell_entries(self.cells@), i as int);
                }
                Some(self.cells[i].1.as_str())
            },
            None => {
                proof {
                    lemma_assoc_absent(cell_entries(self.cells@), header@);
                }
                None
            },
        }
    }

    /// Sets the cell under `header` to `val`, adding it if the row has none.
    pub fn set(&mut self, header: &str, val: String)
        ensures
            final(self)@.key == old(self)@.key,
            final(self)@.cells == old(self)@.cells.insert(header@, val@),
    {
        let h = header.to_owned();
        let ghost e = cell_entries(self.cells@);
        match self.position(&h) {
            Some(i) => {
                proof {
                    lemma_assoc_update_last(e, i as int, val@);
                }
                self.cells.set(i, (h, val));
                assert(cell_entries(self.cells@) =~= e.update(i as int, (e[i as int].0, val@)));
            },
            None => {
                self.cells.push((h, val));
                assert(cell_entries(self.cells@).drop_last() =~= e);
            },
        }
    }
}

/// The rows of a map as (key, row) pairs.
pub open spec fn row_entries(rows: Seq<DynRow>) -> Seq<(Seq<char>, RowView)> {
    rows.map_values(|r: DynRow| (r.key@, r@))
}

/// The rows of one table, by key. A later row for a key replaces an earlier
/// one; rows keep the order in which their keys first came.
#[derive(Debug, Clone)]
pub struct RowMap {
    pub rows: Vec<DynRow>,
}

impl View for RowMap {
    type V = Map<Seq<char>, RowView>;

    open spec fn view(&self) -> Map<Seq<char>, RowView> {
        assoc_map(row_entries(self.rows@))
    }
}

impl RowMap {
    /// A map with no rows.
    pub fn new() -> (r: RowMap)
        ensures
            r@ == Map::<Seq<char>, RowView>::empty(),
    {
        RowMap { rows: Vec::new() }
    }

    /// The index of the last row for `key`.
    fn position(&self, key: &String) -> (r: Option<usize>)
        ensures
            match r {
                Some(i) => is_last_for_key(row_entries(self.rows@), i as int) && row_entries(
                    self.rows@,
                )[i as int].0 == key@,
                None => forall|j: int|
                    0 <= j < self.rows.len() ==> (#[trigger] row_entries(self.rows@)[j]).0
                        != key@,
            },
    {
        let ghost e = row_entries(self.rows@);
        let mut i: usize = self.rows.len();
        while i > 0
            invariant
                i <= self.rows.len(),
                e == row_entries(self.rows@),
                forall|j: int| i <= j < self.rows.len() ==> (#[trigger] e[j]).0 != key@,
            decreases i,
        {
            i -= 1;
            if self.rows[i].key == *key {
                return Some(i);
            }
        }
        None
    }

    /// The row under `key`, if any.
    pub fn get(&self, key: &str) -> (r: Option<&DynRow>)
        ensures
            match r {
                Some(row) => self@.contains_key(key@) && row@ == self@[key@],
                None => !self@.contains_key(key@),
            },
    {
        let k = key.to_owned();
        match self.position(&k) {
            Some(i) => {
                proof {
                    lemma_assoc_last(row_entries(self.rows@), i as int);
                }
                Some(&self.rows[i])
            },
            None => {
                proof {
                    lemma_assoc_absent(row_entries(self.rows@), key@);
                }
                None
            },
        }
    }

    /// Whether a row is stored under `key`.
    pub fn contains_key(&self, key: &str) -> (r: bool)
        ensures
            r == self@.contains_key(key@),
    {
        self.get(key).is_some()
    }

    /// Stores `row` under its own key, replacing any row with that key.
    pub fn insert(&mut self, row: DynRow)
        ensures
            final(self)@ == old(self)@.insert(row.key@, row@),
    {
        let ghost e = row_entries(self.rows@);
        let ghost rv = row@;
        match self.position(&row.key) {
            Some(i) => {
                proof {
                    lemma_assoc_update_last(e, i as int, rv);
                }
                self.rows.set(i, row);
                assert(row_entries(self.rows@) =~= e.update(i as int, (e[i as int].0, rv)));
            },
            None => {
                self.rows.push(row);
                assert(row_entries(self.rows@).drop_last() =~= e);
            },
        }
    }
}

/// The rows that several tables hold under one key. It is a view built on
/// demand, not stored.
#[derive(Debug, Clone)]
pub struct DynEntity {
    pub unique: String,
    pub info: Option<DynRow>,
    pub status: Option<DynRow>,
    pub attack: Option<DynRow>,
    pub skill: Option<DynRow>,
}

/// The key an entity falls back on when its own is empty: that of its first
/// present row, in the order info, status, attack, skill.
pub open spec fn fallback_unique(e: DynEntity) -> Seq<char> {
    if e.unique@.len() > 0 {
        e.unique@
    } else if e.info is Some {
        e.info->0.key@
    } else if e.status is Some {
        e.status->0.key@
    } else if e.attack is Some {
        e.attack->0.key@
    } else if e.skill is Some {
        e.skill->0.key@
    } else {
        e.unique@
    }
}

impl DynEntity {
    /// Fills an empty `unique` from the first present row's key.
    pub fn ensure_unique(&mut self)
        ensures
            final(self).unique@ == fallback_unique(*old(self)),
            final(self).info == old(self).info,
            final(self).status == old(self).status,
            final(self).attack == old(self).attack,
            final(self).skill == old(self).skill,
    {
        if self.unique.as_str().is_empty() {
            if let Some(r) = self.info.as_ref() {
                self.unique = r.key.clone();
            } else if let Some(r) = self.status.as_ref() {
                self.unique = r.key.clone();
            } else if let Some(r) = self.attack.as_ref() {
                self.unique = r.key.clone();
            } else if let Some(r) = self.skill.as_ref() {
                self.unique = r.key.clone();
            }
        }
    }
}

} // verus!
