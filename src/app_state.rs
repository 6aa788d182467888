//! The data set of the editor: four tables, loaded, merged and saved as a
//! unit.
use vstd::prelude::*;

use crate::assoc::lemma_assoc_contains;
use crate::delimited::{csv_read, is_stem_of};
use crate::dyn_entity::{row_entries, DynEntity, DynRow, RowMap, RowView};
use crate::key_order::{key_lt, key_order_lt, lemma_key_order_asymmetric};
use crate::schema::TableSchema;
use crate::storage::{
    encoded, is_loaded_table, is_parse_error_of, load_table, save_table, saved_records, StoreError,
};

verus! {

/// The key hint of the info, attack and skill tables.
pub const PRIMARY_KEY_HINT: &'static str = "CharacterUnique";

/// The path of a table file and the bytes it held when read.
pub struct TableFile {
    pub path: String,
    pub content: Vec<u8>,
}

/// The new text of each table file after a save.
pub struct SavedTables {
    pub info: Vec<u8>,
    pub status: Vec<u8>,
    pub attack: Vec<u8>,
    pub skill: Vec<u8>,
}

/// The schema and rows of every table.
pub struct DataSets {
    pub info_schema: TableSchema,
    pub status_schema: TableSchema,
    pub attack_schema: TableSchema,
    pub info: RowMap,
    pub status: RowMap,
    pub attack: RowMap,
    pub skill_schema: TableSchema,
    pub skill: RowMap,
}

/// `slot` holds the row that `m` has under `k`, or nothing where it has none.
pub open spec fn holds_row_of(m: Map<Seq<char>, RowView>, k: Seq<char>, slot: Option<DynRow>) -> bool {
    match slot {
        Some(row) => m.contains_key(k) && row@ == m[k],
        None => !m.contains_key(k),
    }
}

impl DataSets {
    /// Some table has a row under `k`.
    pub open spec fn has_key(&self, k: Seq<char>) -> bool {
        ||| self.info@.contains_key(k)
        ||| self.status@.contains_key(k)
        ||| self.attack@.contains_key(k)
        ||| self.skill@.contains_key(k)
    }

    /// `e` is the merged entity of its key: the key is in some table, and
    /// each slot holds that table's row under it.
    pub open spec fn is_merged_entity(&self, e: DynEntity) -> bool {
        &&& self.has_key(e.unique@)
        &&& holds_row_of(self.info@, e.unique@, e.info)
        &&& holds_row_of(self.status@, e.unique@, e.status)
        &&& holds_row_of(self.attack@, e.unique@, e.attack)
        &&& holds_row_of(self.skill@, e.unique@, e.skill)
    }

    /// Loads the four tables; the status table's key column is chosen for
    /// `status_key_hint`, the others' for `PRIMARY_KEY_HINT`. Fails with the
    /// first table that cannot be read.
    pub fn load(
        info: &TableFile,
        status: &TableFile,
        attack: &TableFile,
        skill: &TableFile,
        status_key_hint: &str,
    ) -> (r: Result<DataSets, StoreError>)
        ensures
            r is Ok <==> {
                &&& csv_read(info.content@) is Some
                &&& csv_read(status.content@) is Some
                &&& csv_read(attack.content@) is Some
                &&& csv_read(skill.content@) is Some
            },
            r matches Ok(ds) ==> {
                &&& is_stem_of(info.path@, ds.info_schema.name@)
                &&& is_stem_of(status.path@, ds.status_schema.name@)
                &&& is_stem_of(attack.path@, ds.attack_schema.name@)
                &&& is_stem_of(skill.path@, ds.skill_schema.name@)
                &&& csv_read(info.content@) matches Some((h, recs)) && is_loaded_table(
                    ds.info_schema,
                    ds.info,
                    h,
                    recs,
                    PRIMARY_KEY_HINT@,
                )
                &&& csv_read(status.content@) matches Some((h, recs)) && is_loaded_table(
                    ds.status_schema,
                    ds.status,
                    h,
                    recs,
                    status_key_hint@,
                )
                &&& csv_read(attack.content@) matches Some((h, recs)) && is_loaded_table(
                    ds.attack_schema,
                    ds.attack,
                    h,
                    recs,
                    PRIMARY_KEY_HINT@,
                )
                &&& csv_read(skill.content@) matches Some((h, recs)) && is_loaded_table(
                    ds.skill_schema,
                    ds.skill,
                    h,
                    recs,
                    PRIMARY_KEY_HINT@,
                )
            },
            csv_read(info.content@) is None ==> is_parse_error_of(r, info.path@),
            csv_read(info.content@) is Some && csv_read(status.content@) is None
                ==> is_parse_error_of(r, status.path@),
            csv_read(info.content@) is Some && csv_read(status.content@) is Some && csv_read(
                attack.content@,
            ) is None ==> is_parse_error_of(r, attack.path@),
            csv_read(info.content@) is Some && csv_read(status.content@) is Some && csv_read(
                attack.content@,
            ) is Some && csv_read(skill.content@) is None ==> is_parse_error_of(r, skill.path@),
    {
        let (info_schema, info_rows) = load_table(info.path.as_str(), info.content.as_slice(), PRIMARY_KEY_HINT)?;
        let (status_schema, status_rows) = load_table(status.path.as_str(), status.content.as_slice(), status_key_hint)?;
        let (attack_schema, attack_rows) = load_table(attack.path.as_str(), attack.content.as_slice(), PRIMARY_KEY_HINT)?;
        let (skill_schema, skill_rows) = load_table(skill.path.as_str(), skill.content.as_slice(), PRIMARY_KEY_HINT)?;
        Ok(DataSets {
            info_schema,
            status_schema,
            attack_schema,
            info: info_rows,
            status: status_rows,
            attack: attack_rows,
            skill_schema,
            skill: skill_rows,
        })
    }

    /// The entity of key `k`, with each table's row under it.
    fn entity_of(&self, k: &String) -> (r: DynEntity)
        requires
            self.has_key(k@),
        ensures
            r.unique == *k,
            self.is_merged_entity(r),
    {
        let info = match self.info.get(k.as_str()) {
            Some(row) => Some(row.clone()),
            None => None,
        };
        let status = match self.status.get(k.as_str()) {
            Some(row) => Some(row.clone()),
            None => None,
        };
        let attack = match self.attack.get(k.as_str()) {
            Some(row) => Some(row.clone()),
            None => None,
        };
        let skill = match self.skill.get(k.as_str()) {
            Some(row) => Some(row.clone()),
            None => None,
        };
        DynEntity { unique: k.clone(), info, status, attack, skill }
    }

    /// Adds to `out` the entity of every key of `table` that it lacks.
    fn add_entities_of(&self, table: &RowMap, out: &mut Vec<DynEntity>)
        requires
            forall|k: Seq<char>| table@.contains_key(k) ==> self.has_key(k),
            forall|i: int| 0 <= i < old(out).len() ==> self.is_merged_entity(#[trigger] old(out)@[i]),
            forall|i: int, j: int|
                0 <= i < j < old(out).len() ==> old(out)@[i].unique@ != old(out)@[j].unique@,
        ensures
            forall|i: int| 0 <= i < final(out).len() ==> self.is_merged_entity(#[trigger] final(out)@[i]),
            forall|i: int, j: int|
                0 <= i < j < final(out).len() ==> final(out)@[i].unique@ != final(out)@[j].unique@,
            old(out).len() <= final(out).len(),
            forall|i: int| 0 <= i < old(out).len() ==> final(out)@[i] == old(out)@[i],
            forall|k: Seq<char>|
                table@.contains_key(k) ==> exists|i: int|
                    0 <= i < final(out).len() && (#[trigger] final(out)@[i]).unique@ == k,
    {
        let ghost e = row_entries(table.rows@);
        let ghost start = out@;
        let mut t: usize = 0;
        while t < table.rows.len()
            invariant
                t <= table.rows.len(),
                e == row_entries(table.rows@),
                forall|k: Seq<char>| table@.contains_key(k) ==> self.has_key(k),
                start.len() <= out.len(),
                forall|i: int| 0 <= i < start.len() ==> out@[i] == start[i],
                forall|i: int| 0 <= i < out.len() ==> self.is_merged_entity(#[trigger] out@[i]),
                forall|i: int, j: int| 0 <= i < j < out.len() ==> out@[i].unique@ != out@[j].unique@,
                forall|x: int|
                    0 <= x < t ==> exists|i: int|
                        0 <= i < out.len() && (#[trigger] out@[i]).unique@ == (#[trigger] e[x]).0,
            decreases table.rows.len() - t,
        {
            let k = &table.rows[t].key;
            let ghost before = out@;
            assert(e[t as int].0 == k@);
            let mut i: usize = 0;
            let mut found = false;
            while i < out.len() && !found
                invariant
                    i <= out.len(),
                    found ==> i < out.len() && out@[i as int].unique@ == k@,
                    !found ==> forall|j: int| 0 <= j < i ==> (#[trigger] out@[j]).unique@ != k@,
                decreases out.len() - i + (if found { 0int } else { 1int }),
            {
                if out[i].unique == *k {
                    found = true;
                } else {
                    i += 1;
                }
            }
            if !found {
                proof {
                    lemma_assoc_contains(e, k@);
                }
                let ent = self.entity_of(k);
                out.push(ent);
                assert(out@[out.len() - 1].unique@ == e[t as int].0);
            } else {
                assert(out@[i as int].unique@ == e[t as int].0);
            }
            assert forall|x: int| 0 <= x < t + 1 implies exists|j: int|
                0 <= j < out.len() && (#[trigger] out@[j]).unique@ == (#[trigger] e[x]).0 by {
                if x < t {
                    let j = choose|j: int|
                        0 <= j < before.len() && (#[trigger] before[j]).unique@ == e[x].0;
                    assert(out@[j] == before[j]);
                } else if found {
                    assert(out@[i as int].unique@ == e[x].0);
                } else {
                    assert(out@[out.len() - 1].unique@ == e[x].0);
                }
            }
            t += 1;
        }
        assert forall|k: Seq<char>| table@.contains_key(k) implies exists|i: int|
            0 <= i < out.len() && (#[trigger] out@[i]).unique@ == k by {
            lemma_assoc_contains(e, k);
            let x = choose|x: int| 0 <= x < e.len() && (#[trigger] e[x]).0 == k;
        }
    }

    /// One entity per key found in any table, each holding every table's row
    /// under its key; the order is that in which keys are first met in info,
    /// status, attack, then skill.
    pub fn merged(&self) -> (r: Vec<DynEntity>)
        ensures
            forall|i: int| 0 <= i < r.len() ==> self.is_merged_entity(#[trigger] r@[i]),
            forall|i: int, j: int| 0 <= i < j < r.len() ==> r@[i].unique@ != r@[j].unique@,
            forall|k: Seq<char>|
                self.has_key(k) ==> exists|i: int| 0 <= i < r.len() && (#[trigger] r@[i]).unique@ == k,
    {
        let mut out: Vec<DynEntity> = Vec::new();
        self.add_entities_of(&self.info, &mut out);
        let ghost s1 = out@;
        self.add_entities_of(&self.status, &mut out);
        let ghost s2 = out@;
        self.add_entities_of(&self.attack, &mut out);
        let ghost s3 = out@;
        self.add_entities_of(&self.skill, &mut out);
        assert forall|k: Seq<char>| self.has_key(k) implies exists|i: int|
            0 <= i < out.len() && (#[trigger] out@[i]).unique@ == k by {
            if self.info@.contains_key(k) {
                let i = choose|i: int| 0 <= i < s1.len() && (#[trigger] s1[i]).unique@ == k;
                assert(s2[i] == s1[i] && s3[i] == s2[i] && out@[i] == s3[i]);
            } else if self.status@.contains_key(k) {
                let i = choose|i: int| 0 <= i < s2.len() && (#[trigger] s2[i]).unique@ == k;
                assert(s3[i] == s2[i] && out@[i] == s3[i]);
            } else if self.attack@.contains_key(k) {
                let i = choose|i: int| 0 <= i < s3.len() && (#[trigger] s3[i]).unique@ == k;
                assert(out@[i] == s3[i]);
            }
        }
        out
    }

    /// Saves every table over the text its file holds now, by the key column
    /// its schema names and with its current rows as updates. Fails with the
    /// first table that cannot be read or written.
    pub fn save_all(
        &self,
        info: &TableFile,
        status: &TableFile,
        attack: &TableFile,
        skill: &TableFile,
    ) -> (r: Result<SavedTables, StoreError>)
        ensures
            r is Ok <==> {
                &&& csv_read(info.content@) is Some
                &&& csv_read(status.content@) is Some
                &&& csv_read(attack.content@) is Some
                &&& csv_read(skill.content@) is Some
            },
            csv_read(info.content@) is None ==> is_parse_error_of(r, info.path@),
            csv_read(info.content@) is Some && csv_read(status.content@) is None
                ==> is_parse_error_of(r, status.path@),
            csv_read(info.content@) is Some && csv_read(status.content@) is Some && csv_read(
                attack.content@,
            ) is None ==> is_parse_error_of(r, attack.path@),
            csv_read(info.content@) is Some && csv_read(status.content@) is Some && csv_read(
                attack.content@,
            ) is Some && csv_read(skill.content@) is None ==> is_parse_error_of(r, skill.path@),
            r matches Ok(out) ==> {
                &&& csv_read(info.content@) matches Some((h, recs)) && out.info@ == encoded(
                    saved_records(h, recs, self.info_schema.key_column@, self.info@),
                )
                &&& csv_read(status.content@) matches Some((h, recs)) && out.status@ == encoded(
                    saved_records(h, recs, self.status_schema.key_column@, self.status@),
                )
                &&& csv_read(attack.content@) matches Some((h, recs)) && out.attack@ == encoded(
                    saved_records(h, recs, self.attack_schema.key_column@, self.attack@),
                )
                &&& csv_read(skill.content@) matches Some((h, recs)) && out.skill@ == encoded(
                    saved_records(h, recs, self.skill_schema.key_column@, self.skill@),
                )
            },
    {
        let info_out = save_table(
            info.path.as_str(),
            info.content.as_slice(),
            self.info_schema.key_column.as_str(),
            &self.info,
        )?;
        let status_out = save_table(
            status.path.as_str(),
            status.content.as_slice(),
            self.status_schema.key_column.as_str(),
            &self.status,
        )?;
        let attack_out = save_table(
            attack.path.as_str(),
            attack.content.as_slice(),
            self.attack_schema.key_column.as_str(),
            &self.attack,
        )?;
        let skill_out = save_table(
            skill.path.as_str(),
            skill.content.as_slice(),
            self.skill_schema.key_column.as_str(),
            &self.skill,
        )?;
        Ok(SavedTables { info: info_out, status: status_out, attack: attack_out, skill: skill_out })
    }
}

/// No key of `v` comes before the one listed ahead of it.
pub open spec fn is_listed_in_order(v: Seq<String>) -> bool {
    forall|i: int, j: int|
        0 <= i && j == i + 1 && j < v.len() ==> !key_order_lt((#[trigger] v[j])@, (#[trigger] v[i])@)
}

/// Some entry of `v` has the text `k`.
pub open spec fn is_listed(v: Seq<String>, k: Seq<char>) -> bool {
    exists|i: int| 0 <= i < v.len() && (#[trigger] v[i])@ == k
}

/// Inserts `k` after every key that does not come after it.
fn insert_in_order(out: &mut Vec<String>, k: String)
    requires
        is_listed_in_order(old(out)@),
    ensures
        is_listed_in_order(final(out)@),
        exists|p: int| 0 <= p <= old(out).len() && final(out)@ == old(out)@.insert(p, k),
{
    let mut p: usize = 0;
    while p < out.len() && !key_lt(k.as_str(), out[p].as_str())
        invariant
            p <= out.len(),
            out@ == old(out)@,
            is_listed_in_order(out@),
            forall|j: int| 0 <= j < p ==> !key_order_lt(k@, (#[trigger] out@[j])@),
        decreases out.len() - p,
    {
        p += 1;
    }
    let ghost before = out@;
    proof {
        if p < before.len() {
            lemma_key_order_asymmetric(k@, before[p as int]@);
        }
    }
    out.insert(p, k);
    assert forall|i: int, j: int| 0 <= i && j == i + 1 && j < out@.len() implies !key_order_lt(
        (#[trigger] out@[j])@,
        (#[trigger] out@[i])@,
    ) by {
        if j < p {
            assert(out@[i] == before[i] && out@[j] == before[j]);
        } else if j == p {
            assert(out@[i] == before[i]);
        } else if i == p {
            assert(out@[i] == k && out@[j] == before[i]);
        } else {
            assert(out@[i] == before[i - 1] && out@[j] == before[i]);
        }
    }
}

/// Adds to `out`, in order, every non-empty key of `table` that it lacks.
#[verifier::loop_isolation(false)]
fn add_keys_of(table: &RowMap, out: &mut Vec<String>)
    requires
        is_listed_in_order(old(out)@),
        forall|i: int, j: int| 0 <= i < j < old(out).len() ==> old(out)@[i]@ != old(out)@[j]@,
    ensures
        is_listed_in_order(final(out)@),
        forall|i: int, j: int| 0 <= i < j < final(out).len() ==> final(out)@[i]@ != final(out)@[j]@,
        forall|k: Seq<char>|
            is_listed(final(out)@, k) <==> is_listed(old(out)@, k) || (table@.contains_key(k)
                && k.len() > 0),
{
    let ghost e = row_entries(table.rows@);
    let ghost start = out@;
    let mut t: usize = 0;
    while t < table.rows.len()
        invariant
            t <= table.rows.len(),
            e == row_entries(table.rows@),
            is_listed_in_order(out@),
            forall|i: int, j: int| 0 <= i < j < out.len() ==> out@[i]@ != out@[j]@,
            forall|k: Seq<char>|
                is_listed(out@, k) <==> is_listed(start, k) || exists|x: int|
                    0 <= x < t && (#[trigger] e[x]).0 == k && k.len() > 0,
        decreases table.rows.len() - t,
    {
        let k = &table.rows[t].key;
        assert(e[t as int].0 == k@);
        let ghost before = out@;
        assert(forall|kk: Seq<char>|
            is_listed(before, kk) <==> is_listed(start, kk) || exists|x: int|
                0 <= x < t && (#[trigger] e[x]).0 == kk && kk.len() > 0);
        let mut i: usize = 0;
        let mut found = false;
        while i < out.len() && !found
            invariant
                i <= out.len(),
                out@ == before,
                found ==> i < out.len() && out@[i as int]@ == k@,
                !found ==> forall|j: int| 0 <= j < i ==> (#[trigger] out@[j])@ != k@,
            decreases out.len() - i + (if found {
                0int
            } else {
                1int
            }),
        {
            if out[i] == *k {
                found = true;
            } else {
                i += 1;
            }
        }
        if !found && !k.as_str().is_empty() {
            insert_in_order(out, k.clone());
            assert forall|kk: Seq<char>| is_listed(out@, kk) <==> is_listed(before, kk) || kk == k@ by {
                let p = choose|p: int| 0 <= p <= before.len() && out@ == before.insert(p, *k);
                if is_listed(before, kk) {
                    let j = choose|j: int| 0 <= j < before.len() && (#[trigger] before[j])@ == kk;
                    if j < p {
                        assert(out@[j] == before[j]);
                    } else {
                        assert(out@[j + 1] == before[j]);
                    }
                }
                if kk == k@ {
                    assert(out@[p]@ == kk);
                }
                if is_listed(out@, kk) {
                    let j = choose|j: int| 0 <= j < out@.len() && (#[trigger] out@[j])@ == kk;
                    if j < p {
                        assert(out@[j] == before[j]);
                    } else if j > p {
                        assert(out@[j] == before[j - 1]);
                    }
                }
            }
            assert forall|a: int, b: int| 0 <= a < b < out.len() implies out@[a]@ != out@[b]@ by {
                let p = choose|p: int| 0 <= p <= before.len() && out@ == before.insert(p, *k);
                if a != p && b != p {
                    let a0 = if a < p { a } else { a - 1 };
                    let b0 = if b < p { b } else { b - 1 };
                    assert(out@[a] == before[a0] && out@[b] == before[b0]);
                } else if a == p {
                    assert(out@[b] == before[b - 1]);
                } else {
                    assert(out@[a] == before[a]);
                }
            }
        } else if found {
            assert(is_listed(before, k@)) by {
                assert(before[i as int]@ == k@);
            }
        }
        assert forall|kk: Seq<char>|
            is_listed(out@, kk) <==> is_listed(start, kk) || exists|x: int|
                0 <= x < t + 1 && (#[trigger] e[x]).0 == kk && kk.len() > 0 by {
            let old_ex = exists|x: int| 0 <= x < t && (#[trigger] e[x]).0 == kk && kk.len() > 0;
            let new_ex = exists|x: int| 0 <= x < t + 1 && (#[trigger] e[x]).0 == kk && kk.len() > 0;
            assert(is_listed(before, kk) <==> is_listed(start, kk) || old_ex);
            assert(is_listed(out@, kk) <==> is_listed(before, kk) || (kk == k@ && k@.len() > 0));
            if new_ex {
                let x = choose|x: int| 0 <= x < t + 1 && (#[trigger] e[x]).0 == kk && kk.len() > 0;
                if x < t {
                    assert(old_ex);
                } else {
                    assert(kk == k@);
                }
            }
            if old_ex {
                let x = choose|x: int| 0 <= x < t && (#[trigger] e[x]).0 == kk && kk.len() > 0;
                assert(0 <= x < t + 1 && e[x].0 == kk);
                assert(new_ex);
            }
            if kk == k@ && k@.len() > 0 {
                assert(0 <= t < t + 1 && e[t as int].0 == kk);
                assert(new_ex);
            }
        }
        t += 1;
    }
    assert forall|k: Seq<char>|
        (exists|x: int| 0 <= x < e.len() && (#[trigger] e[x]).0 == k && k.len() > 0) <==> (
        table@.contains_key(k) && k.len() > 0) by {
        lemma_assoc_contains(e, k);
    }
}

/// The non-empty keys of all four tables, each once, listed so that no key
/// comes before the one ahead of it: by value where both are `u64` numbers,
/// else by text.
pub fn gather_sorted_unique_keys(ds: &DataSets) -> (r: Vec<String>)
    ensures
        forall|k: Seq<char>| is_listed(r@, k) <==> ds.has_key(k) && k.len() > 0,
        forall|i: int, j: int| 0 <= i < j < r.len() ==> r@[i]@ != r@[j]@,
        is_listed_in_order(r@),
{
    let mut out: Vec<String> = Vec::new();
    add_keys_of(&ds.info, &mut out);
    add_keys_of(&ds.status, &mut out);
    add_keys_of(&ds.attack, &mut out);
    add_keys_of(&ds.skill, &mut out);
    out
}

} // verus!
