//! Exception handling logic: the saved-context frame, the synchronous-abort
//! routing, and the page-fault classification.

pub mod handlers;
pub mod page_fault;
pub mod types;
