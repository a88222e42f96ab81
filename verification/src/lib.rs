//! Scans movie feeds, remembers releases, queues new torrents and tidies finished downloads.

pub mod app;
pub mod binary64;
pub mod cli;
pub mod db;
pub mod feed;
pub mod filter;
pub mod html;
pub mod json;
pub mod links;
pub mod models;
pub mod moving;
pub mod natural;
pub mod number;
pub mod order;
pub mod organizer;
pub mod paths;
pub mod quality;
pub mod rating;
pub mod table;
pub mod text;
pub mod tidying;
pub mod transmission;
