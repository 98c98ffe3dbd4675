//! What the operations of the library are for, stated of all inputs.

pub mod answers;
pub mod building;
pub mod calendar;
pub mod document;
pub mod features;
pub mod layout;
pub mod listing;
pub mod measuring;
pub mod payload;
pub mod probing;
pub mod request;
pub mod serving;
pub mod space;
pub mod stand;
pub mod variants;
pub mod views;
pub mod working;
