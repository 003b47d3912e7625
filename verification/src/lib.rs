//! A small gacha game: fruits are drawn from a weighted pool into an
//! inventory that holds a limited number of copies of each fruit, a DLC code
//! raises that limit, and the game state is kept in a plain-text save file.

pub mod command;
pub mod data;
pub mod draw;
pub mod gacha;
pub mod inventory;
pub mod text;
