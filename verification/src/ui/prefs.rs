//! Terminal preferences (font, scrollback). Reading and writing `settings.toml` is the
//! frontend's job.

use vstd::prelude::*;

verus! {

/// Lines of scrollback when none were chosen.
pub fn default_scrollback() -> (n: u32)
    ensures
        n == 10_000,
{
    10_000
}

#[derive(Debug, Clone)]
pub struct Settings {
    pub font: Option<String>,
    pub scrollback_lines: u32,
}

impl Default for Settings {
    fn default() -> (s: Settings)
        ensures
            s.font is None,
            s.scrollback_lines == 10_000,
    {
        Settings { font: None, scrollback_lines: default_scrollback() }
    }
}

/// The font kept from the font dialog: its description, or none when that is empty.
pub fn font_setting(description: String) -> (r: Option<String>)
    ensures
        description@.len() == 0 ==> r is None,
        description@.len() > 0 ==> r == Some(description),
{
    if description.as_str().is_empty() {
        None
    } else {
        Some(description)
    }
}

} // verus!
