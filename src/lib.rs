pub mod assoc_map;
pub mod chain_map;
pub mod flail_map;
pub mod hammer_map;
pub mod list;

pub use assoc_map::{AssocMap, MapIterator};
pub use chain_map::{ChainMap, ChainMapIterator};
pub use flail_map::{FlailMap, FlailMapIterator};
pub use hammer_map::{HammerMap, HammerMapIterator};
pub use list::{List, ListIterator};
