//! The logic behind a commit-history editor's graphical front end: diff and
//! conflict line numbering, gutter cues, commit-message style checks, searching,
//! drag-and-drop payloads and the rules that decide what each gesture does.
//!
//! Every module states its behaviour over mathematical text (`Seq<char>`) and
//! proves the executable functions against it.
pub mod blame_col;
pub mod buffer_util;
pub mod conflict;
pub mod conflict_mode;
pub mod diff_cues;
pub mod display;
pub mod dnd;
pub mod dragdrop;
pub mod file_edits;
pub mod fontsize;
pub mod gutter;
pub mod highlight;
pub mod hover;
pub mod identity;
pub mod indices;
pub mod ink;
pub mod keys;
pub mod lanebranch;
pub mod linenums;
pub mod model;
pub mod msglint;
pub mod numbers;
pub mod order;
pub mod paths;
pub mod rows;
pub mod saving;
pub mod search;
pub mod selection;
pub mod session;
pub mod spelling;
pub mod split_laws;
pub mod state;
pub mod text;
pub mod trash;
pub mod unicode;
pub mod white;
pub mod window_state;
