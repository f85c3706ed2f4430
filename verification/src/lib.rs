pub mod db;
pub mod index;
pub mod rank;
pub mod search;
pub mod skill;
pub mod sync;
pub mod text;
