pub mod crawler;
pub mod links;
pub mod page;
pub mod web;
