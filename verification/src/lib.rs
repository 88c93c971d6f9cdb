//! Omacal's pure core: vCard reading, the task CLI's argument grammar,
//! place lookup rules and the task pane's view model.

pub mod text;
pub mod vcard;
pub mod tasks;
pub mod cli_tasks;
pub mod civil;
pub mod geocode;
pub mod contacts;
