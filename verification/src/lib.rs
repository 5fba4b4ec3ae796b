//! A recorder for shell command history and the state of an interactive
//! search over it.
//!
//! - [`db`] is the store: an append-only log of entries, a scan of the most
//!   recent ones filtered by literal substring, and the statistics of the most
//!   frequent commands.
//! - [`ui`] is the search: a session that holds a query, the entries that the
//!   scan gave for it and a cursor on them; the step that one key makes; and
//!   the screen that shows a session.
//! - [`cli`] is the command line: the subcommands and what each of them does
//!   to the store.
//!
//! Every function carries a contract over the mathematical model of its
//! module, and the laws of each model are stated beside it as proof
//! functions. The clock ([`clock`]) and the machine's name ([`host`]) come
//! from outside; what is taken on trust about them is said where they are
//! called.

pub mod cli;
pub mod clock;
pub mod db;
pub mod host;
pub mod insertion;
pub mod text;
pub mod ui;
