pub mod card;
pub mod collection;
pub mod index;
pub mod pages;
pub mod parse;
pub mod render;
pub mod scanner;
pub mod search;
pub mod topic;
