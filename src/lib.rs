//! Schema-inferring storage for small delimited game-data tables: tables are
//! read into rows that keep every column, merged by key across tables, and
//! written back over their files changing only the edited cells.

pub mod text;
pub mod assoc;
pub mod schema;
pub mod dyn_entity;
pub mod delimited;
pub mod storage;
pub mod key_order;
pub mod app_state;
pub mod status_key;
pub mod raw_data;
pub mod entity;
