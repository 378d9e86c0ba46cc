pub mod closest;
pub mod full_search;
pub mod graph;
pub mod paging;
pub mod search;
