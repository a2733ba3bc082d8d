//! Directory marks and bookmarks: a numbered or named tag for a directory,
//! stored as `key,path` lines, and the commands that read and change them.

pub mod commands;
pub mod entries;
pub mod store;
pub mod text;

pub use commands::{
    bookmark, bookmark_into, get, lookup_value, ls, mark, mark_dir, marked_text, remove_bookmark, remove_from,
    render_list, run_cmd, MarksRepository, GET_NEEDS_KEY, HELP, KEY_WIDTH, WRONG_ARGUMENTS,
};
pub use entries::{key_less, Entries};
pub use store::{
    bookmarks_file_text, decimal_string, file_path_in, get_marks_file_path, join_path_str, mark_entry, new_mark,
    resolve_dir, Repository, BOOKMARKED, DATA_PATH, MARKED, NOT_A_DIRECTORY,
};
pub use text::{parse_entries, render_entries, split_record};
