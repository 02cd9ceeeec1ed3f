//! The title of the window.

use crate::paths::{
    body_start, file_name, is_plain, is_verbatim, law_folders_do_not_change_the_name, name_in, splits,
};
use vstd::prelude::*;

verus! {

/// The name of the program.
pub const APP_NAME: &'static str = "Radio Track Splitter";

/// The title for a recording: the name of the program, and that of the file if there is one.
pub open spec fn title_for(input: Option<Seq<char>>) -> Seq<char> {
    match input {
        Some(path) => match name_in(path) {
            Some(name) => APP_NAME@ + " - "@ + name,
            None => APP_NAME@,
        },
        None => APP_NAME@,
    }
}

/// The characters of a text that may be there.
pub open spec fn maybe_text(s: Option<&str>) -> Option<Seq<char>> {
    match s {
        Some(s) => Some(s@),
        None => None,
    }
}

/// The title for a recording, without the folders of its path.
pub fn window_title(input: Option<&str>) -> (r: String)
    ensures
        r@ == title_for(maybe_text(input)),
{
    let mut r: String = APP_NAME.to_owned();
    if let Some(path) = input {
        if let Some(name) = file_name(path) {
            r.append(" - ");
            r.append(name.as_str());
        }
    }
    r
}

/// The new title where it differs from the current one, which it then replaces.
pub fn title_update(current: &mut String, input: Option<&str>) -> (r: Option<String>)
    ensures
        final(current)@ == title_for(maybe_text(input)),
        match r {
            Some(title) => title@ == final(current)@ && old(current)@ != final(current)@,
            None => old(current)@ == final(current)@,
        },
{
    let title = window_title(input);
    if title == *current {
        None
    } else {
        *current = title.as_str().to_owned();
        Some(title)
    }
}

/// The title of the window is the name of the program, and behind it that of the file that the
/// recording's path leads to, without its folders.
pub proof fn law_the_title_names_the_recording(folders: Seq<char>, f: Seq<char>)
    requires
        is_plain(f),
        body_start(folders + f) <= folders.len(),
        folders.len() == body_start(folders + f) || splits(
            is_verbatim(folders + f),
            folders.last(),
        ),
    ensures
        title_for(None) == "Radio Track Splitter"@,
        title_for(Some(folders + f)) == "Radio Track Splitter"@ + " - "@ + f,
{
    law_folders_do_not_change_the_name(folders, f);
}

} // verus!
