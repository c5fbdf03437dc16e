//! Verified logic for reviewing, committing, testing and debugging code from an editor.
pub mod adapter;
pub mod api;
pub mod bytes;
pub mod commit;
pub mod console;
pub mod cursor;
pub mod dap;
pub mod decode;
pub mod discussions;
pub mod discovery;
pub mod drafts;
pub mod eval;
pub mod fetch;
pub mod git;
pub mod github;
pub mod gotest;
pub mod history;
pub mod inline;
pub mod json;
pub mod launch;
pub mod mapping;
pub mod order;
pub mod paths;
pub mod placement;
pub mod process;
pub mod push;
pub mod recent;
pub mod replies;
pub mod review;
pub mod rope;
pub mod seed;
pub mod selection;
pub mod session;
pub mod status;
pub mod text;
pub mod threads;
pub mod variables;
pub mod vcs;
pub mod worktree;
