//! The fixed-layout character container: one entity per character key, with
//! its info, status and attack records.
use std::collections::HashMap;

use vstd::prelude::*;

use crate::raw_data::{RawDataCharacterAttackInfo, RawDataCharacterInfo, RawDataCharacterStatusInfo};
use crate::delimited::records_texts;
use crate::storage::is_first_ci;
use crate::text::{ascii_ci_eq, eq_ignore_ascii_case, is_u32_field, parse_trimmed_u32, texts};

verus! {

broadcast use vstd::std_specs::hash::group_hash_axioms;

/// The header texts the tables use for the fields shown in the editor.
#[derive(Debug, Clone)]
pub struct FieldLabels {
    pub info_name: String,
    pub status_health: String,
    pub status_mana: String,
    pub status_stamina: String,
    pub attack_attack_power: String,
    pub attack_defense_power: String,
}

impl Default for FieldLabels {
    fn default() -> (r: Self)
        ensures
            r.info_name@ == Seq::<char>::empty(),
            r.status_health@ == Seq::<char>::empty(),
            r.status_mana@ == Seq::<char>::empty(),
            r.status_stamina@ == Seq::<char>::empty(),
            r.attack_attack_power@ == Seq::<char>::empty(),
            r.attack_defense_power@ == Seq::<char>::empty(),
    {
        FieldLabels {
            info_name: String::new(),
            status_health: String::new(),
            status_mana: String::new(),
            status_stamina: String::new(),
            attack_attack_power: String::new(),
            attack_defense_power: String::new(),
        }
    }
}

/// One character: its key and its record from each table.
#[derive(Debug)]
pub struct CharacterEntity {
    pub unique: u32,
    pub character_info: RawDataCharacterInfo,
    pub character_status_info: RawDataCharacterStatusInfo,
    pub character_attack_info: RawDataCharacterAttackInfo,
}

impl Clone for CharacterEntity {
    fn clone(&self) -> (r: Self)
        ensures
            r == *self,
    {
        CharacterEntity {
            unique: self.unique,
            character_info: self.character_info.clone(),
            character_status_info: self.character_status_info,
            character_attack_info: self.character_attack_info,
        }
    }
}

/// The characters by key, the paths of their three tables, and the header
/// labels found in them.
pub struct CharacterEntityContainer {
    entities: HashMap<u32, CharacterEntity>,
    character_info_data_path: String,
    character_status_info_data_path: String,
    character_attack_info_data_path: String,
    status_key_column_override: Option<String>,
    labels: FieldLabels,
}

/// Why the status table could not be read by a key column named by hand.
#[derive(Debug, Clone)]
pub enum EntityLoadError {
    /// No header matches the named key column up to ASCII case.
    KeyColumnMissing(String),
    /// No header matches this required column up to ASCII case.
    HeaderMissing(String),
    /// A record has no field under a required column.
    FieldMissing,
    /// A field that must hold a `u32` holds this text.
    InvalidNumber(String),
}

/// The header used as label for `target`: the first one matching it up to
/// ASCII case, else `target` itself.
pub open spec fn header_label(h: Seq<Seq<char>>, target: Seq<char>) -> Seq<char> {
    if exists|i: int| is_first_ci(h, target, i) {
        h[choose|i: int| is_first_ci(h, target, i)]
    } else {
        target
    }
}

/// The entity a new info record makes: zero status and attack records.
pub open spec fn fresh_entity(r: RawDataCharacterInfo) -> CharacterEntity {
    CharacterEntity {
        unique: r.unique,
        character_info: r,
        character_status_info: RawDataCharacterStatusInfo {
            unique: 0,
            health: 0,
            mana: 0,
            stamina: 0,
        },
        character_attack_info: RawDataCharacterAttackInfo {
            unique: 0,
            attack_power: 0,
            defense_power: 0,
        },
    }
}

/// `m` after adding, in order, the entity of each info record.
pub open spec fn with_info_records(
    m: Map<u32, CharacterEntity>,
    recs: Seq<RawDataCharacterInfo>,
) -> Map<u32, CharacterEntity>
    decreases recs.len(),
{
    if recs.len() == 0 {
        m
    } else {
        with_info_records(m, recs.drop_last()).insert(recs.last().unique, fresh_entity(recs.last()))
    }
}

/// `m` after applying, in order, each status record to its entity.
pub open spec fn with_status_records(
    m: Map<u32, CharacterEntity>,
    recs: Seq<RawDataCharacterStatusInfo>,
) -> Map<u32, CharacterEntity>
    decreases recs.len(),
{
    if recs.len() == 0 {
        m
    } else {
        with_status(with_status_records(m, recs.drop_last()), recs.last().unique, recs.last())
    }
}

/// `m` after applying, in order, each attack record to its entity.
pub open spec fn with_attack_records(
    m: Map<u32, CharacterEntity>,
    recs: Seq<RawDataCharacterAttackInfo>,
) -> Map<u32, CharacterEntity>
    decreases recs.len(),
{
    if recs.len() == 0 {
        m
    } else {
        with_attack(with_attack_records(m, recs.drop_last()), recs.last().unique, recs.last())
    }
}

/// `v` is the status record that text record `rec` reads as, its key at
/// field `k` and its health and mana under the first headers matching
/// `Health` and `Mana` up to ASCII case.
pub open spec fn reads_status(
    h: Seq<Seq<char>>,
    rec: Seq<Seq<char>>,
    k: int,
    v: RawDataCharacterStatusInfo,
) -> bool {
    exists|hi: int, mi: int|
        #[trigger] is_first_ci(h, "Health"@, hi) && #[trigger] is_first_ci(h, "Mana"@, mi) && 0 <= k
            < rec.len() && hi < rec.len() && mi < rec.len() && is_u32_field(rec[k], v.unique)
            && is_u32_field(rec[hi], v.health) && is_u32_field(rec[mi], v.mana) && v.stamina == 0
}

/// Only one index is the first header matching a target.
proof fn lemma_first_ci_unique(h: Seq<Seq<char>>, target: Seq<char>, i: int, j: int)
    requires
        is_first_ci(h, target, i),
        is_first_ci(h, target, j),
    ensures
        i == j,
{
    if i < j {
        assert(!ascii_ci_eq(h[i], target));
    } else if j < i {
        assert(!ascii_ci_eq(h[j], target));
    }
}

/// What `reads_status` says of the fields under the headers it names.
proof fn lemma_reads_status_fields(
    h: Seq<Seq<char>>,
    rec: Seq<Seq<char>>,
    k: int,
    v: RawDataCharacterStatusInfo,
    hi: int,
    mi: int,
)
    requires
        reads_status(h, rec, k, v),
        is_first_ci(h, "Health"@, hi),
        is_first_ci(h, "Mana"@, mi),
    ensures
        hi < rec.len(),
        mi < rec.len(),
        is_u32_field(rec[hi], v.health),
        is_u32_field(rec[mi], v.mana),
{
    let (hi2, mi2) = choose|hi2: int, mi2: int|
        #[trigger] is_first_ci(h, "Health"@, hi2) && #[trigger] is_first_ci(h, "Mana"@, mi2) && 0
            <= k < rec.len() && hi2 < rec.len() && mi2 < rec.len() && is_u32_field(rec[k], v.unique)
            && is_u32_field(rec[hi2], v.health) && is_u32_field(rec[mi2], v.mana) && v.stamina == 0;
    lemma_first_ci_unique(h, "Health"@, hi, hi2);
    lemma_first_ci_unique(h, "Mana"@, mi, mi2);
}

/// Every text record reads as some status record, keyed at field `k`.
pub open spec fn all_read_status(h: Seq<Seq<char>>, recs: Seq<Seq<Seq<char>>>, k: int) -> bool {
    forall|i: int| 0 <= i < recs.len() ==> reads_some_status(h, #[trigger] recs[i], k)
}

/// Text record `rec` reads as some status record, keyed at field `k`.
pub open spec fn reads_some_status(h: Seq<Seq<char>>, rec: Seq<Seq<char>>, k: int) -> bool {
    exists|v: RawDataCharacterStatusInfo| reads_status(h, rec, k, v)
}

/// `m` with the status record of character `u` replaced, if it has one.
pub open spec fn with_status(
    m: Map<u32, CharacterEntity>,
    u: u32,
    s: RawDataCharacterStatusInfo,
) -> Map<u32, CharacterEntity> {
    if m.contains_key(u) {
        m.insert(u, CharacterEntity { character_status_info: s, ..m[u] })
    } else {
        m
    }
}

/// `m` with the attack record of character `u` replaced, if it has one.
pub open spec fn with_attack(
    m: Map<u32, CharacterEntity>,
    u: u32,
    a: RawDataCharacterAttackInfo,
) -> Map<u32, CharacterEntity> {
    if m.contains_key(u) {
        m.insert(u, CharacterEntity { character_attack_info: a, ..m[u] })
    } else {
        m
    }
}

impl View for CharacterEntityContainer {
    type V = Map<u32, CharacterEntity>;

    closed spec fn view(&self) -> Map<u32, CharacterEntity> {
        self.entities@
    }
}

impl CharacterEntityContainer {
    /// The paths of the info, status and attack tables.
    pub closed spec fn paths(&self) -> (Seq<char>, Seq<char>, Seq<char>) {
        (
            self.character_info_data_path@,
            self.character_status_info_data_path@,
            self.character_attack_info_data_path@,
        )
    }

    /// The status table's key column, where one was set by hand.
    pub closed spec fn status_key_override(&self) -> Option<Seq<char>> {
        match self.status_key_column_override {
            Some(s) => Some(s@),
            None => None,
        }
    }

    /// The header labels found in the loaded tables.
    pub closed spec fn field_labels(&self) -> FieldLabels {
        self.labels
    }

    /// The header labels found in the loaded tables.
    pub fn labels(&self) -> (r: &FieldLabels)
        ensures
            *r == self.field_labels(),
    {
        &self.labels
    }

    /// An empty container with empty paths and labels.
    pub fn new() -> (r: Self)
        ensures
            r@ == Map::<u32, CharacterEntity>::empty(),
            r.paths() == (Seq::<char>::empty(), Seq::<char>::empty(), Seq::<char>::empty()),
            r.status_key_override() is None,
            r.field_labels().info_name@.len() == 0,
            r.field_labels().status_health@.len() == 0,
            r.field_labels().status_mana@.len() == 0,
            r.field_labels().status_stamina@.len() == 0,
            r.field_labels().attack_attack_power@.len() == 0,
            r.field_labels().attack_defense_power@.len() == 0,
    {
        Self {
            entities: HashMap::new(),
            character_info_data_path: String::new(),
            character_status_info_data_path: String::new(),
            character_attack_info_data_path: String::new(),
            status_key_column_override: None,
            labels: FieldLabels::default(),
        }
    }

    /// Sets the paths of the three tables.
    pub fn set_paths(&mut self, info: String, status: String, attack: String)
        ensures
            final(self).paths() == (info@, status@, attack@),
            final(self)@ == old(self)@,
            final(self).status_key_override() == old(self).status_key_override(),
            final(self).field_labels() == old(self).field_labels(),
    {
        self.character_info_data_path = info;
        self.character_status_info_data_path = status;
        self.character_attack_info_data_path = attack;
    }

    /// Names by hand the status table's key column.
    pub fn set_status_key_column_override(&mut self, col: String)
        ensures
            final(self).status_key_override() == Some(col@),
            final(self)@ == old(self)@,
            final(self).paths() == old(self).paths(),
            final(self).field_labels() == old(self).field_labels(),
    {
        self.status_key_column_override = Some(col);
    }

    /// The path of the info table.
    pub fn info_path(&self) -> (r: &str)
        ensures
            r@ == self.paths().0,
    {
        self.character_info_data_path.as_str()
    }

    /// The path of the status table.
    pub fn status_path(&self) -> (r: &str)
        ensures
            r@ == self.paths().1,
    {
        self.character_status_info_data_path.as_str()
    }

    /// The path of the attack table.
    pub fn attack_path(&self) -> (r: &str)
        ensures
            r@ == self.paths().2,
    {
        self.character_attack_info_data_path.as_str()
    }

    /// The status table's key column, where one was set by hand.
    pub fn status_key_column_override(&self) -> (r: Option<&str>)
        ensures
            match r {
                Some(s) => self.status_key_override() == Some(s@),
                None => self.status_key_override() is None,
            },
    {
        match &self.status_key_column_override {
            Some(s) => Some(s.as_str()),
            None => None,
        }
    }

    /// Stores `entity` under its key, replacing any entity with that key.
    pub fn add_entity(&mut self, entity: CharacterEntity)
        ensures
            final(self)@ == old(self)@.insert(entity.unique, entity),
            final(self).paths() == old(self).paths(),
            final(self).status_key_override() == old(self).status_key_override(),
            final(self).field_labels() == old(self).field_labels(),
    {
        self.entities.insert(entity.unique, entity);
    }

    /// The entity under `unique`, if any.
    pub fn get_entity(&self, unique: u32) -> (r: Option<&CharacterEntity>)
        ensures
            match r {
                Some(e) => self@.contains_key(unique) && *e == self@[unique],
                None => !self@.contains_key(unique),
            },
    {
        self.entities.get(&unique)
    }

    /// Replaces the status record of the entity under `unique`, if any.
    pub fn update_character_entity_status(
        &mut self,
        unique: u32,
        status_info: RawDataCharacterStatusInfo,
    )
        ensures
            final(self)@ == with_status(old(self)@, unique, status_info),
            final(self).paths() == old(self).paths(),
            final(self).status_key_override() == old(self).status_key_override(),
            final(self).field_labels() == old(self).field_labels(),
    {
        if let Some(entity) = self.entities.remove(&unique) {
            let mut entity = entity;
            entity.character_status_info = status_info;
            self.entities.insert(unique, entity);
            assert(self.entities@ =~= with_status(old(self)@, unique, status_info));
        }
    }

    /// Replaces the attack record of the entity under `unique`, if any.
    pub fn update_character_entity_attack_info(
        &mut self,
        unique: u32,
        attack_info: RawDataCharacterAttackInfo,
    )
        ensures
            final(self)@ == with_attack(old(self)@, unique, attack_info),
            final(self).paths() == old(self).paths(),
            final(self).status_key_override() == old(self).status_key_override(),
            final(self).field_labels() == old(self).field_labels(),
    {
        if let Some(entity) = self.entities.remove(&unique) {
            let mut entity = entity;
            entity.character_attack_info = attack_info;
            self.entities.insert(unique, entity);
            assert(self.entities@ =~= with_attack(old(self)@, unique, attack_info));
        }
    }

    /// Removes the entity under `unique`, if any.
    pub fn remove_entity(&mut self, unique: u32)
        ensures
            final(self)@ == old(self)@.remove(unique),
            final(self).paths() == old(self).paths(),
            final(self).status_key_override() == old(self).status_key_override(),
            final(self).field_labels() == old(self).field_labels(),
    {
        self.entities.remove(&unique);
    }

    /// The index of the first header matching `target` up to ASCII case.
    fn find_header_index(headers: &Vec<String>, target: &str) -> (r: Option<usize>)
        ensures
            match r {
                Some(i) => is_first_ci(texts(headers@), target@, i as int),
                None => forall|i: int| !is_first_ci(texts(headers@), target@, i),
            },
    {
        let ghost h = texts(headers@);
        let mut i: usize = 0;
        while i < headers.len()
            invariant
                i <= headers.len(),
                h == texts(headers@),
                forall|j: int| 0 <= j < i ==> !ascii_ci_eq(h[j], target@),
            decreases headers.len() - i,
        {
            if eq_ignore_ascii_case(headers[i].as_str(), target) {
                return Some(i);
            }
            i += 1;
        }
        None
    }

    /// The first header matching `target` up to ASCII case.
    fn find_header_case_insensitive(headers: &Vec<String>, target: &str) -> (r: Option<String>)
        ensures
            match r {
                Some(s) => exists|i: int|
                    is_first_ci(texts(headers@), target@, i) && s@ == texts(headers@)[i],
                None => forall|i: int| !is_first_ci(texts(headers@), target@, i),
            },
    {
        match Self::find_header_index(headers, target) {
            Some(i) => Some(headers[i].clone()),
            None => None,
        }
    }

    /// The label of `target` among `headers`.
    fn header_label_of(headers: &Vec<String>, target: &str) -> (r: String)
        ensures
            r@ == header_label(texts(headers@), target@),
    {
        let ghost h = texts(headers@);
        match Self::find_header_case_insensitive(headers, target) {
            Some(s) => {
                proof {
                    let i = choose|i: int| is_first_ci(h, target@, i) && s@ == h[i];
                    let c = choose|i: int| is_first_ci(h, target@, i);
                    if c < i {
                        assert(!ascii_ci_eq(h[c], target@));
                    } else if i < c {
                        assert(!ascii_ci_eq(h[i], target@));
                    }
                }
                s
            },
            None => target.to_owned(),
        }
    }

    /// Takes the info table's records: each makes a new entity with zero
    /// status and attack records, and the `Name` header gives the name label.
    pub fn load_info_records(&mut self, headers: &Vec<String>, records: &Vec<RawDataCharacterInfo>)
        ensures
            final(self)@ == with_info_records(old(self)@, records@),
            final(self).field_labels() == (FieldLabels {
                info_name: final(self).field_labels().info_name,
                ..old(self).field_labels()
            }),
            final(self).field_labels().info_name@ == header_label(texts(headers@), "Name"@),
            final(self).paths() == old(self).paths(),
            final(self).status_key_override() == old(self).status_key_override(),
    {
        self.labels.info_name = Self::header_label_of(headers, "Name");
        let mut i: usize = 0;
        while i < records.len()
            invariant
                i <= records.len(),
                self@ == with_info_records(old(self)@, records@.take(i as int)),
                self.field_labels().info_name@ == header_label(texts(headers@), "Name"@),
                self.field_labels() == (FieldLabels {
                    info_name: self.field_labels().info_name,
                    ..old(self).field_labels()
                }),
                self.paths() == old(self).paths(),
                self.status_key_override() == old(self).status_key_override(),
            decreases records.len() - i,
        {
            let record = records[i].clone();
            let entity = CharacterEntity {
                unique: record.unique,
                character_info: record,
                character_status_info: RawDataCharacterStatusInfo::new_zero(),
                character_attack_info: RawDataCharacterAttackInfo::new_zero(),
            };
            self.add_entity(entity);
            assert(records@.take(i + 1).drop_last() =~= records@.take(i as int));
            i += 1;
        }
        assert(records@.take(i as int) =~= records@);
    }

    /// Sets the health, mana and stamina labels from the status table's
    /// headers; stamina keeps a label it already has.
    fn set_status_labels(&mut self, headers: &Vec<String>)
        ensures
            final(self)@ == old(self)@,
            final(self).paths() == old(self).paths(),
            final(self).status_key_override() == old(self).status_key_override(),
            final(self).field_labels().status_health@ == header_label(texts(headers@), "Health"@),
            final(self).field_labels().status_mana@ == header_label(texts(headers@), "Mana"@),
            final(self).field_labels().status_stamina@ == if old(self).field_labels().status_stamina@.len() == 0 {
                "Stamina"@
            } else {
                old(self).field_labels().status_stamina@
            },
            final(self).field_labels() == (FieldLabels {
                status_health: final(self).field_labels().status_health,
                status_mana: final(self).field_labels().status_mana,
                status_stamina: final(self).field_labels().status_stamina,
                ..old(self).field_labels()
            }),
    {
        self.labels.status_health = Self::header_label_of(headers, "Health");
        self.labels.status_mana = Self::header_label_of(headers, "Mana");
        if self.labels.status_stamina.as_str().is_empty() {
            self.labels.status_stamina = "Stamina".to_owned();
        }
    }

    /// Takes the status table's records: each replaces the status record of
    /// the entity with its key, if there is one.
    pub fn load_status_records(
        &mut self,
        headers: &Vec<String>,
        records: &Vec<RawDataCharacterStatusInfo>,
    )
        ensures
            final(self)@ == with_status_records(old(self)@, records@),
            final(self).field_labels().status_health@ == header_label(texts(headers@), "Health"@),
            final(self).field_labels().status_mana@ == header_label(texts(headers@), "Mana"@),
            final(self).field_labels().status_stamina@ == if old(self).field_labels().status_stamina@.len() == 0 {
                "Stamina"@
            } else {
                old(self).field_labels().status_stamina@
            },
            final(self).field_labels() == (FieldLabels {
                status_health: final(self).field_labels().status_health,
                status_mana: final(self).field_labels().status_mana,
                status_stamina: final(self).field_labels().status_stamina,
                ..old(self).field_labels()
            }),
            final(self).paths() == old(self).paths(),
            final(self).status_key_override() == old(self).status_key_override(),
    {
        self.set_status_labels(headers);
        let ghost labels = self.field_labels();
        let mut i: usize = 0;
        while i < records.len()
            invariant
                i <= records.len(),
                self@ == with_status_records(old(self)@, records@.take(i as int)),
                self.field_labels() == labels,
                self.paths() == old(self).paths(),
                self.status_key_override() == old(self).status_key_override(),
            decreases records.len() - i,
        {
            let status = records[i];
            self.update_character_entity_status(status.unique, status);
            assert(records@.take(i + 1).drop_last() =~= records@.take(i as int));
            i += 1;
        }
        assert(records@.take(i as int) =~= records@);
    }

    /// Takes the attack table's records: each replaces the attack record of
    /// the entity with its key, if there is one.
    pub fn load_attack_records(
        &mut self,
        headers: &Vec<String>,
        records: &Vec<RawDataCharacterAttackInfo>,
    )
        ensures
            final(self)@ == with_attack_records(old(self)@, records@),
            final(self).field_labels().attack_attack_power@ == header_label(
                texts(headers@),
                "AttackPower"@,
            ),
            final(self).field_labels().attack_defense_power@ == header_label(
                texts(headers@),
                "DefensePower"@,
            ),
            final(self).field_labels() == (FieldLabels {
                attack_attack_power: final(self).field_labels().attack_attack_power,
                attack_defense_power: final(self).field_labels().attack_defense_power,
                ..old(self).field_labels()
            }),
            final(self).paths() == old(self).paths(),
            final(self).status_key_override() == old(self).status_key_override(),
    {
        self.labels.attack_attack_power = Self::header_label_of(headers, "AttackPower");
        self.labels.attack_defense_power = Self::header_label_of(headers, "DefensePower");
        let ghost labels = self.field_labels();
        let mut i: usize = 0;
        while i < records.len()
            invariant
                i <= records.len(),
                self@ == with_attack_records(old(self)@, records@.take(i as int)),
                self.field_labels() == labels,
                self.paths() == old(self).paths(),
                self.status_key_override() == old(self).status_key_override(),
            decreases records.len() - i,
        {
            let attack = records[i];
            self.update_character_entity_attack_info(attack.unique, attack);
            assert(records@.take(i + 1).drop_last() =~= records@.take(i as int));
            i += 1;
        }
        assert(records@.take(i as int) =~= records@);
    }

    /// Reads one status record from its text fields.
    fn read_status_record(
        headers: &Vec<String>,
        rec: &Vec<String>,
        k: usize,
    ) -> (r: Result<RawDataCharacterStatusInfo, EntityLoadError>)
        ensures
            match r {
                Ok(v) => reads_status(texts(headers@), texts(rec@), k as int, v),
                Err(_) => forall|v: RawDataCharacterStatusInfo|
                    !reads_status(texts(headers@), texts(rec@), k as int, v),
            },
    {
        let ghost h = texts(headers@);
        let ghost t = texts(rec@);
        if k >= rec.len() {
            return Err(EntityLoadError::FieldMissing);
        }
        let unique = match parse_trimmed_u32(rec[k].as_str()) {
            Some(v) => v,
            None => {
                return Err(EntityLoadError::InvalidNumber(rec[k].clone()));
            },
        };
        let hi = match Self::find_header_index(headers, "Health") {
            Some(i) => i,
            None => {
                return Err(EntityLoadError::HeaderMissing("Health".to_owned()));
            },
        };
        if hi >= rec.len() {
            proof {
                assert forall|v: RawDataCharacterStatusInfo| !reads_status(h, t, k as int, v) by {
                    if reads_status(h, t, k as int, v) {
                        let mi2 = choose|mi2: int| is_first_ci(h, "Mana"@, mi2) && mi2 < t.len();
                        lemma_reads_status_fields(h, t, k as int, v, hi as int, mi2);
                    }
                }
            }
            return Err(EntityLoadError::FieldMissing);
        }
        let health = match parse_trimmed_u32(rec[hi].as_str()) {
            Some(v) => v,
            None => {
                proof {
                    assert forall|v: RawDataCharacterStatusInfo| !reads_status(h, t, k as int, v) by {
                        if reads_status(h, t, k as int, v) {
                            let mi2 = choose|mi2: int| is_first_ci(h, "Mana"@, mi2) && mi2 < t.len();
                            lemma_reads_status_fields(h, t, k as int, v, hi as int, mi2);
                            assert(t[hi as int] == rec@[hi as int]@);
                        }
                    }
                }
                return Err(EntityLoadError::InvalidNumber(rec[hi].clone()));
            },
        };
        let mi = match Self::find_header_index(headers, "Mana") {
            Some(i) => i,
            None => {
                return Err(EntityLoadError::HeaderMissing("Mana".to_owned()));
            },
        };
        if mi >= rec.len() {
            proof {
                assert forall|v: RawDataCharacterStatusInfo| !reads_status(h, t, k as int, v) by {
                    if reads_status(h, t, k as int, v) {
                        lemma_reads_status_fields(h, t, k as int, v, hi as int, mi as int);
                    }
                }
            }
            return Err(EntityLoadError::FieldMissing);
        }
        let mana = match parse_trimmed_u32(rec[mi].as_str()) {
            Some(v) => v,
            None => {
                proof {
                    assert forall|v: RawDataCharacterStatusInfo| !reads_status(h, t, k as int, v) by {
                        if reads_status(h, t, k as int, v) {
                            lemma_reads_status_fields(h, t, k as int, v, hi as int, mi as int);
                            assert(t[mi as int] == rec@[mi as int]@);
                        }
                    }
                }
                return Err(EntityLoadError::InvalidNumber(rec[mi].clone()));
            },
        };
        let v = RawDataCharacterStatusInfo { unique, health, mana, stamina: 0 };
        assert(t[k as int] == rec@[k as int]@);
        assert(t[hi as int] == rec@[hi as int]@);
        assert(t[mi as int] == rec@[mi as int]@);
        assert(is_first_ci(h, "Health"@, hi as int) && is_first_ci(h, "Mana"@, mi as int));
        Ok(v)
    }

    /// Takes the status table's records by a key column named by hand: the
    /// first header matching `key_col` up to ASCII case holds each record's
    /// key, the first ones matching `Health` and `Mana` its health and mana,
    /// each a `u32` with white space around it allowed. Each record replaces
    /// the status record of the entity with its key, if there is one, until
    /// one cannot be read.
    pub fn load_status_records_with_key_column(
        &mut self,
        key_col: &str,
        headers: &Vec<String>,
        records: &Vec<Vec<String>>,
    ) -> (r: Result<(), EntityLoadError>)
        ensures
            final(self).field_labels().status_health@ == header_label(texts(headers@), "Health"@),
            final(self).field_labels().status_mana@ == header_label(texts(headers@), "Mana"@),
            final(self).field_labels().status_stamina@ == if old(self).field_labels().status_stamina@.len() == 0 {
                "Stamina"@
            } else {
                old(self).field_labels().status_stamina@
            },
            final(self).field_labels() == (FieldLabels {
                status_health: final(self).field_labels().status_health,
                status_mana: final(self).field_labels().status_mana,
                status_stamina: final(self).field_labels().status_stamina,
                ..old(self).field_labels()
            }),
            final(self).paths() == old(self).paths(),
            final(self).status_key_override() == old(self).status_key_override(),
            (forall|k: int| !is_first_ci(texts(headers@), key_col@, k)) ==> {
                &&& r matches Err(EntityLoadError::KeyColumnMissing(c)) && c@ == key_col@
                &&& final(self)@ == old(self)@
            },
            r is Ok <==> exists|k: int|
                #[trigger] is_first_ci(texts(headers@), key_col@, k) && all_read_status(
                    texts(headers@),
                    records_texts(records@),
                    k,
                ),
            r is Ok ==> exists|k: int, parsed: Seq<RawDataCharacterStatusInfo>|
                {
                    &&& is_first_ci(texts(headers@), key_col@, k)
                    &&& parsed.len() == records.len()
                    &&& forall|i: int|
                        0 <= i < records.len() ==> reads_status(
                            texts(headers@),
                            #[trigger] texts(records@[i]@),
                            k,
                            parsed[i],
                        )
                    &&& final(self)@ == with_status_records(old(self)@, parsed)
                },
    {
        let ghost h = texts(headers@);
        self.set_status_labels(headers);
        let ghost labels = self.field_labels();
        let k = match Self::find_header_index(headers, key_col) {
            Some(k) => k,
            None => {
                return Err(EntityLoadError::KeyColumnMissing(key_col.to_owned()));
            },
        };
        let ghost mut parsed: Seq<RawDataCharacterStatusInfo> = Seq::empty();
        let mut i: usize = 0;
        while i < records.len()
            invariant
                i <= records.len(),
                h == texts(headers@),
                is_first_ci(h, key_col@, k as int),
                parsed.len() == i,
                forall|j: int| 0 <= j < i ==> reads_status(h, #[trigger] texts(records@[j]@), k as int, parsed[j]),
                self@ == with_status_records(old(self)@, parsed),
                self.field_labels() == labels,
                labels.status_health@ == header_label(h, "Health"@),
                labels.status_mana@ == header_label(h, "Mana"@),
                labels.status_stamina@ == if old(self).field_labels().status_stamina@.len() == 0 {
                    "Stamina"@
                } else {
                    old(self).field_labels().status_stamina@
                },
                labels == (FieldLabels {
                    status_health: labels.status_health,
                    status_mana: labels.status_mana,
                    status_stamina: labels.status_stamina,
                    ..old(self).field_labels()
                }),
                self.paths() == old(self).paths(),
                self.status_key_override() == old(self).status_key_override(),
            decreases records.len() - i,
        {
            match Self::read_status_record(headers, &records[i], k) {
                Ok(status) => {
                    self.update_character_entity_status(status.unique, status);
                    proof {
                        let ghost before = parsed;
                        parsed = parsed.push(status);
                        assert(parsed.drop_last() =~= before);
                    }
                },
                Err(e) => {
                    proof {
                        let recs = records_texts(records@);
                        assert forall|k2: int|
                            is_first_ci(h, key_col@, k2) implies !all_read_status(h, recs, k2) by {
                            lemma_first_ci_unique(h, key_col@, k as int, k2);
                            assert(recs[i as int] == texts(records@[i as int]@));
                            assert(forall|v: RawDataCharacterStatusInfo|
                                !reads_status(h, recs[i as int], k as int, v));
                        }
                    }
                    return Err(e);
                },
            }
            i += 1;
        }
        proof {
            let recs = records_texts(records@);
            assert forall|x: int| 0 <= x < recs.len() implies reads_some_status(
                h,
                #[trigger] recs[x],
                k as int,
            ) by {
                assert(recs[x] == texts(records@[x]@));
                assert(reads_status(h, recs[x], k as int, parsed[x]));
            }
            assert(all_read_status(h, recs, k as int));
        }
        Ok(())
    }

    /// The info records of a table as they are saved: a record whose key has
    /// an entity becomes that entity's info record.
    pub fn saved_info_records(&self, records: &Vec<RawDataCharacterInfo>) -> (r: Vec<
        RawDataCharacterInfo,
    >)
        ensures
            r.len() == records.len(),
            forall|i: int|
                0 <= i < records.len() ==> #[trigger] r@[i] == if self@.contains_key(
                    records@[i].unique,
                ) {
                    self@[records@[i].unique].character_info
                } else {
                    records@[i]
                },
    {
        let mut out: Vec<RawDataCharacterInfo> = Vec::new();
        let mut i: usize = 0;
        while i < records.len()
            invariant
                i <= records.len(),
                out.len() == i,
                forall|j: int|
                    0 <= j < i ==> #[trigger] out@[j] == if self@.contains_key(records@[j].unique) {
                        self@[records@[j].unique].character_info
                    } else {
                        records@[j]
                    },
            decreases records.len() - i,
        {
            let rec = match self.get_entity(records[i].unique) {
                Some(ent) => ent.character_info.clone(),
                None => records[i].clone(),
            };
            out.push(rec);
            i += 1;
        }
        out
    }

    /// The status records of a table as they are saved: a record whose key
    /// has an entity becomes that entity's status record.
    pub fn saved_status_records(&self, records: &Vec<RawDataCharacterStatusInfo>) -> (r: Vec<
        RawDataCharacterStatusInfo,
    >)
        ensures
            r.len() == records.len(),
            forall|i: int|
                0 <= i < records.len() ==> #[trigger] r@[i] == if self@.contains_key(
                    records@[i].unique,
                ) {
                    self@[records@[i].unique].character_status_info
                } else {
                    records@[i]
                },
    {
        let mut out: Vec<RawDataCharacterStatusInfo> = Vec::new();
        let mut i: usize = 0;
        while i < records.len()
            invariant
                i <= records.len(),
                out.len() == i,
                forall|j: int|
                    0 <= j < i ==> #[trigger] out@[j] == if self@.contains_key(records@[j].unique) {
                        self@[records@[j].unique].character_status_info
                    } else {
                        records@[j]
                    },
            decreases records.len() - i,
        {
            let rec = match self.get_entity(records[i].unique) {
                Some(ent) => ent.character_status_info,
                None => records[i],
            };
            out.push(rec);
            i += 1;
        }
        out
    }

    /// The attack records of a table as they are saved: a record whose key
    /// has an entity becomes that entity's attack record.
    pub fn saved_attack_records(&self, records: &Vec<RawDataCharacterAttackInfo>) -> (r: Vec<
        RawDataCharacterAttackInfo,
    >)
        ensures
            r.len() == records.len(),
            forall|i: int|
                0 <= i < records.len() ==> #[trigger] r@[i] == if self@.contains_key(
                    records@[i].unique,
                ) {
                    self@[records@[i].unique].character_attack_info
                } else {
                    records@[i]
                },
    {
        let mut out: Vec<RawDataCharacterAttackInfo> = Vec::new();
        let mut i: usize = 0;
        while i < records.len()
            invariant
                i <= records.len(),
                out.len() == i,
                forall|j: int|
                    0 <= j < i ==> #[trigger] out@[j] == if self@.contains_key(records@[j].unique) {
                        self@[records@[j].unique].character_attack_info
                    } else {
                        records@[j]
                    },
            decreases records.len() - i,
        {
            let rec = match self.get_entity(records[i].unique) {
                Some(ent) => ent.character_attack_info,
                None => records[i],
            };
            out.push(rec);
            i += 1;
        }
        out
    }
}

} // verus!
