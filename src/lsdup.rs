pub mod config;
pub mod content;
pub mod devino;
pub mod filevisitor;
pub mod lenhash;
pub mod runmodel;
