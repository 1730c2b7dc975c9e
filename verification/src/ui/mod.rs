//! What the desktop frontend decides, apart from its widgets: naming duplicated hosts, the
//! `sftp://` location of a host, what each host action does to the config and the metadata, the
//! sidebar's subtitles, search and ordering, host colors, the session badge, the terminal
//! settings and the session-ended text.

pub mod badge;
pub mod color;
pub mod host_list;
pub mod prefs;
pub mod terminal;
pub mod window;
