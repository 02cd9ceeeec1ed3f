//! File names inside paths. Paths are read the way Windows reads them: `/` and `\`
//! both separate, and a path may begin with a drive (`C:`), a share (`\\server\share`) or a
//! device (`\\.\COM1`), none of which is a file name. In a verbatim path, which begins with
//! `\\?\`, only `\` separates.

use vstd::prelude::*;

use crate::text::chars_of;
use crate::text::text_of;

verus! {

/// Whether a character separates the parts of a path that is not verbatim.
pub open spec fn separates(c: char) -> bool {
    c == '/' || c == '\\'
}

/// Whether a character separates the parts of a path, which may be verbatim.
pub open spec fn splits(verbatim: bool, c: char) -> bool {
    c == '\\' || (c == '/' && !verbatim)
}

fn is_separator(c: char) -> (r: bool)
    ensures
        r == separates(c),
{
    c == '/' || c == '\\'
}

fn is_split(verbatim: bool, c: char) -> (r: bool)
    ensures
        r == splits(verbatim, c),
{
    c == '\\' || (c == '/' && !verbatim)
}

/// Whether a character names a drive.
pub open spec fn names_drive(c: char) -> bool {
    'a' <= c <= 'z' || 'A' <= c <= 'Z'
}

fn is_drive_name(c: char) -> (r: bool)
    ensures
        r == names_drive(c),
{
    ('a' <= c && c <= 'z') || ('A' <= c && c <= 'Z')
}

/// Whether a path is verbatim.
pub open spec fn is_verbatim(s: Seq<char>) -> bool {
    s.len() >= 4 && s[0] == '\\' && s[1] == '\\' && s[2] == '?' && s[3] == '\\'
}

fn find_verbatim(s: &Vec<char>) -> (r: bool)
    ensures
        r == is_verbatim(s@),
{
    s.len() >= 4 && s[0] == '\\' && s[1] == '\\' && s[2] == '?' && s[3] == '\\'
}

/// The place of the first separator at or after `from`, or the end.
pub open spec fn part_end(s: Seq<char>, verbatim: bool, from: int) -> int
    decreases s.len() - from,
{
    if from < 0 || from >= s.len() {
        s.len() as int
    } else if splits(verbatim, s[from]) {
        from
    } else {
        part_end(s, verbatim, from + 1)
    }
}

fn find_part_end(s: &Vec<char>, verbatim: bool, from: usize) -> (r: usize)
    requires
        from <= s@.len(),
    ensures
        r == part_end(s@, verbatim, from as int),
        from <= r <= s@.len(),
{
    let mut i: usize = from;
    while i < s.len() && !is_split(verbatim, s[i])
        invariant
            from <= i <= s@.len(),
            part_end(s@, verbatim, from as int) == part_end(s@, verbatim, i as int),
        decreases s@.len() - i,
    {
        i = i + 1;
    }
    i
}

/// The length of what a verbatim path begins with: `\\?\UNC\server\share`, `\\?\C:`, or
/// `\\?\` and whatever comes up to the next separator.
pub open spec fn verbatim_prefix_len(s: Seq<char>) -> int {
    if s.len() >= 8 && s[4] == 'U' && s[5] == 'N' && s[6] == 'C' && s[7] == '\\' {
        let server = part_end(s, true, 8);
        let share = part_end(s, true, server + 1);
        if server + 1 < share {
            share
        } else {
            server
        }
    } else if s.len() >= 6 && names_drive(s[4]) && s[5] == ':' && (s.len() == 6 || separates(
        s[6],
    )) {
        6
    } else {
        part_end(s, true, 4)
    }
}

/// The length of the drive, share or device that a path begins with.
pub open spec fn prefix_len(s: Seq<char>) -> int {
    if is_verbatim(s) {
        verbatim_prefix_len(s)
    } else if s.len() >= 2 && separates(s[0]) && separates(s[1]) {
        if s.len() >= 4 && s[2] == '.' && separates(s[3]) {
            part_end(s, false, 4)
        } else {
            let server = part_end(s, false, 2);
            let share = part_end(s, false, server + 1);
            if 2 < server < s.len() && server + 1 < share {
                share
            } else {
                0
            }
        }
    } else if s.len() >= 2 && names_drive(s[0]) && s[1] == ':' {
        2
    } else {
        0
    }
}

fn find_verbatim_prefix(s: &Vec<char>) -> (r: usize)
    requires
        is_verbatim(s@),
    ensures
        r == verbatim_prefix_len(s@),
        r <= s@.len(),
{
    let n: usize = s.len();
    if n >= 8 && s[4] == 'U' && s[5] == 'N' && s[6] == 'C' && s[7] == '\\' {
        let server: usize = find_part_end(s, true, 8);
        if server == n {
            return server;
        }
        let share: usize = find_part_end(s, true, server + 1);
        if server + 1 < share {
            share
        } else {
            server
        }
    } else if n >= 6 && is_drive_name(s[4]) && s[5] == ':' && (n == 6 || is_separator(s[6])) {
        6
    } else {
        find_part_end(s, true, 4)
    }
}

fn find_prefix(s: &Vec<char>) -> (r: usize)
    ensures
        r == prefix_len(s@),
        r <= s@.len(),
{
    if find_verbatim(s) {
        return find_verbatim_prefix(s);
    }
    let n: usize = s.len();
    if n < 2 {
        0
    } else if is_separator(s[0]) && is_separator(s[1]) {
        if n >= 4 && s[2] == '.' && is_separator(s[3]) {
            return find_part_end(s, false, 4);
        }
        let server: usize = find_part_end(s, false, 2);
        if server == 2 || server == n {
            return 0;
        }
        let share: usize = find_part_end(s, false, server + 1);
        if server + 1 < share {
            share
        } else {
            0
        }
    } else if is_drive_name(s[0]) && s[1] == ':' {
        2
    } else {
        0
    }
}

/// Where the parts of a path begin: behind its prefix, and behind the separator that stands
/// for its root.
pub open spec fn body_start(s: Seq<char>) -> int {
    let n = prefix_len(s);
    if 0 <= n < s.len() && separates(s[n]) {
        n + 1
    } else {
        n
    }
}

fn find_body(s: &Vec<char>) -> (r: usize)
    ensures
        r == body_start(s@),
        r <= s@.len(),
{
    let n: usize = find_prefix(s);
    if n < s.len() && is_separator(s[n]) {
        n + 1
    } else {
        n
    }
}

/// Where the part that ends at `end` begins.
pub open spec fn part_start(s: Seq<char>, verbatim: bool, from: int, end: int) -> int
    decreases end,
{
    if end <= from || end <= 0 || splits(verbatim, s[end - 1]) {
        end
    } else {
        part_start(s, verbatim, from, end - 1)
    }
}

pub proof fn lemma_part_start(s: Seq<char>, verbatim: bool, from: int, end: int)
    requires
        0 <= from <= end <= s.len(),
    ensures
        from <= part_start(s, verbatim, from, end) <= end,
        end > from && !splits(verbatim, s[end - 1]) ==> part_start(s, verbatim, from, end) < end,
    decreases end,
{
    if end > from && !splits(verbatim, s[end - 1]) {
        lemma_part_start(s, verbatim, from, end - 1);
    }
}

/// The last part of `s[from..end]`: separators behind it do not count, and `..` is no name.
/// Nor is `.`, which counts for nothing unless the path is verbatim.
pub open spec fn last_part(s: Seq<char>, verbatim: bool, from: int, end: int) -> Option<(int, int)>
    decreases end - from,
    when 0 <= from <= end <= s.len()
{
    if end <= from {
        None
    } else if splits(verbatim, s[end - 1]) {
        last_part(s, verbatim, from, end - 1)
    } else {
        let start = part_start(s, verbatim, from, end);
        let part = s.subrange(start, end);
        if part == seq!['.'] && !verbatim {
            proof {
                lemma_part_start(s, verbatim, from, end);
            }
            last_part(s, verbatim, from, start)
        } else if part == seq!['.'] || part == seq!['.', '.'] {
            None
        } else {
            Some((start, end))
        }
    }
}

/// The name of the file that a path leads to.
pub open spec fn name_in(path: Seq<char>) -> Option<Seq<char>> {
    match last_part(path, is_verbatim(path), body_start(path), path.len() as int) {
        Some((start, end)) => Some(path.subrange(start, end)),
        None => None,
    }
}

/// Where the dot before a file name's extension stands: the last one, unless the name
/// begins with it.
pub open spec fn extension_dot(name: Seq<char>) -> Option<int>
    decreases name.len(),
{
    if name.len() <= 1 {
        None
    } else if name.last() == '.' {
        Some(name.len() - 1)
    } else {
        extension_dot(name.drop_last())
    }
}

/// A file name without its extension.
pub open spec fn stem_of(name: Seq<char>) -> Seq<char> {
    match extension_dot(name) {
        Some(dot) => name.take(dot),
        None => name,
    }
}

/// The extension of a file name.
pub open spec fn extension_of(name: Seq<char>) -> Option<Seq<char>> {
    match extension_dot(name) {
        Some(dot) => Some(name.skip(dot + 1)),
        None => None,
    }
}

/// The name of the file that a path leads to.
pub fn file_name(path: &str) -> (r: Option<String>)
    ensures
        match r {
            Some(name) => name_in(path@) == Some(name@),
            None => name_in(path@) is None,
        },
{
    let s = chars_of(path);
    let verbatim: bool = find_verbatim(&s);
    let from: usize = find_body(&s);
    let mut end: usize = s.len();
    while end > from
        invariant
            s@ == path@,
            verbatim == is_verbatim(s@),
            from == body_start(s@),
            from <= end <= s@.len(),
            last_part(s@, verbatim, from as int, end as int) == last_part(
                s@,
                verbatim,
                from as int,
                s@.len() as int,
            ),
        decreases end,
    {
        proof {
            lemma_part_start(s@, verbatim, from as int, end as int);
        }
        if is_split(verbatim, s[end - 1]) {
            end = end - 1;
        } else {
            let start: usize = find_part_start(&s, verbatim, from, end);
            let ghost part = s@.subrange(start as int, end as int);
            if end - start == 1 && s[start] == '.' {
                assert(part =~= seq!['.']);
                if verbatim {
                    return None;
                }
                end = start;
            } else {
                assert(part != seq!['.']) by {
                    if part == seq!['.'] {
                        assert(part.len() == 1 && part[0] == '.');
                    }
                }
                if end - start == 2 && s[start] == '.' && s[start + 1] == '.' {
                    assert(part =~= seq!['.', '.']);
                    return None;
                }
                assert(part != seq!['.', '.']) by {
                    if part == seq!['.', '.'] {
                        assert(part.len() == 2 && part[0] == '.' && part[1] == '.');
                    }
                }
                return Some(text_of(&s, start, end));
            }
        }
    }
    None
}

fn find_part_start(s: &Vec<char>, verbatim: bool, from: usize, end: usize) -> (r: usize)
    requires
        from <= end <= s@.len(),
    ensures
        r == part_start(s@, verbatim, from as int, end as int),
        from <= r <= end,
{
    let mut i: usize = end;
    while i > from && !is_split(verbatim, s[i - 1])
        invariant
            from <= i <= end <= s@.len(),
            part_start(s@, verbatim, from as int, end as int) == part_start(
                s@,
                verbatim,
                from as int,
                i as int,
            ),
        decreases i,
    {
        i = i - 1;
    }
    i
}

fn find_extension_dot(name: &Vec<char>) -> (r: Option<usize>)
    ensures
        match r {
            Some(dot) => extension_dot(name@) == Some(dot as int) && dot < name@.len(),
            None => extension_dot(name@) is None,
        },
{
    let mut i: usize = name.len();
    assert(name@.take(i as int) =~= name@);
    while i > 1
        invariant
            i <= name@.len(),
            extension_dot(name@.take(i as int)) == extension_dot(name@),
        decreases i,
    {
        assert(name@.take(i as int).last() == name@[i - 1]);
        assert(name@.take(i as int).drop_last() =~= name@.take(i - 1));
        if name[i - 1] == '.' {
            return Some(i - 1);
        }
        i = i - 1;
    }
    None
}

/// The name of the file that a path leads to, without its extension.
pub fn file_stem(path: &str) -> (r: Option<String>)
    ensures
        match (name_in(path@), r) {
            (Some(name), Some(stem)) => stem@ == stem_of(name),
            (None, None) => true,
            _ => false,
        },
{
    match file_name(path) {
        Some(name) => {
            let chars = chars_of(name.as_str());
            match find_extension_dot(&chars) {
                Some(dot) => Some(text_of(&chars, 0, dot)),
                None => Some(name),
            }
        },
        None => None,
    }
}

/// The extension of the file that a path leads to.
pub fn extension(path: &str) -> (r: Option<String>)
    ensures
        match (name_in(path@), r) {
            (Some(name), Some(ext)) => extension_of(name) == Some(ext@),
            (Some(name), None) => extension_of(name) is None,
            (None, None) => true,
            _ => false,
        },
{
    match file_name(path) {
        Some(name) => {
            let chars = chars_of(name.as_str());
            let len: usize = chars.len();
            match find_extension_dot(&chars) {
                Some(dot) => Some(text_of(&chars, dot + 1, len)),
                None => None,
            }
        },
        None => None,
    }
}

// ---------- laws ----------

/// A file name is its stem, a dot and its extension, or the stem alone.
pub proof fn law_stem_and_extension(name: Seq<char>)
    ensures
        match extension_of(name) {
            Some(ext) => name == stem_of(name) + seq!['.'] + ext,
            None => name == stem_of(name),
        },
    decreases name.len(),
{
    if name.len() > 1 && name.last() != '.' {
        let shorter = name.drop_last();
        law_stem_and_extension(shorter);
        if let Some(dot) = extension_dot(shorter) {
            lemma_extension_dot(shorter);
            assert(name =~= name.take(dot) + seq!['.'] + name.skip(dot + 1));
        }
    } else if name.len() > 1 {
        assert(name =~= name.take(name.len() - 1) + seq!['.'] + name.skip(name.len() as int));
    }
}

proof fn lemma_extension_dot(name: Seq<char>)
    ensures
        extension_dot(name) matches Some(dot) ==> 0 < dot < name.len() && name[dot] == '.',
    decreases name.len(),
{
    if name.len() > 1 && name.last() != '.' {
        lemma_extension_dot(name.drop_last());
    }
}

/// Whether a text is one part of a path and nothing else: a plain file name.
pub open spec fn is_plain(f: Seq<char>) -> bool {
    &&& f.len() > 0
    &&& forall|i: int| 0 <= i < f.len() ==> !separates(#[trigger] f[i])
    &&& f != seq!['.']
    &&& f != seq!['.', '.']
    &&& !(f.len() >= 2 && names_drive(f[0]) && f[1] == ':')
}

proof fn lemma_part_start_at(s: Seq<char>, verbatim: bool, from: int, at: int, end: int)
    requires
        0 <= from <= at <= end <= s.len(),
        forall|i: int| at <= i < end ==> !splits(verbatim, #[trigger] s[i]),
        at == from || splits(verbatim, s[at - 1]),
    ensures
        part_start(s, verbatim, from, end) == at,
    decreases end,
{
    if at < end {
        assert(!splits(verbatim, s[end - 1]));
        lemma_part_start_at(s, verbatim, from, at, end - 1);
    }
}

/// Whatever folders stand in front of a plain file name, it is the name of the file. The
/// folders end in a separator, or are no more than a prefix and a root, and they hold all of
/// that: the name does not become part of a share.
pub proof fn law_folders_do_not_change_the_name(folders: Seq<char>, f: Seq<char>)
    requires
        is_plain(f),
        body_start(folders + f) <= folders.len(),
        folders.len() == body_start(folders + f) || splits(
            is_verbatim(folders + f),
            folders.last(),
        ),
    ensures
        name_in(folders + f) == Some(f),
        name_in(f) == Some(f),
{
    let s = folders + f;
    let k = folders.len() as int;
    let n = s.len() as int;
    let v = is_verbatim(s);
    assert forall|i: int| k <= i < n implies !splits(v, #[trigger] s[i]) by {
        assert(!separates(f[i - k]));
    }
    lemma_prefix_not_negative(s);
    lemma_part_start_at(s, v, body_start(s), k, n);
    assert(s.subrange(k, n) =~= f);
    assert(!splits(v, s[n - 1]));
    assert(!separates(f[0]));
    assert(prefix_len(f) == 0);
    assert(body_start(f) == 0);
    assert forall|i: int| 0 <= i < f.len() implies !splits(false, #[trigger] f[i]) by {
        assert(!separates(f[i]));
    }
    lemma_part_start_at(f, false, 0, 0, f.len() as int);
    assert(f.subrange(0, f.len() as int) =~= f);
    assert(!splits(false, f[f.len() - 1]));
}

proof fn lemma_part_end(s: Seq<char>, verbatim: bool, from: int)
    requires
        0 <= from,
    ensures
        part_end(s, verbatim, from) >= 0,
        from <= s.len() ==> from <= part_end(s, verbatim, from) <= s.len(),
    decreases s.len() - from,
{
    if from < s.len() && !splits(verbatim, s[from]) {
        lemma_part_end(s, verbatim, from + 1);
    }
}

proof fn lemma_prefix_not_negative(s: Seq<char>)
    ensures
        0 <= prefix_len(s) <= s.len(),
        0 <= body_start(s) <= s.len(),
{
    lemma_part_end(s, true, 4);
    lemma_part_end(s, false, 4);
    if s.len() >= 8 {
        lemma_part_end(s, true, 8);
        lemma_part_end(s, true, part_end(s, true, 8) + 1);
    }
    if s.len() >= 2 {
        lemma_part_end(s, false, 2);
        lemma_part_end(s, false, part_end(s, false, 2) + 1);
    }
}

/// Folders that end in a separator and do not begin with two of them hold the whole prefix of
/// a path: they name no share and no device.
pub proof fn law_ordinary_folders_hold_the_prefix(folders: Seq<char>, f: Seq<char>)
    requires
        is_plain(f),
        folders.len() > 0,
        separates(folders.last()),
        folders.len() >= 2 ==> !(separates(folders[0]) && separates(folders[1])),
    ensures
        body_start(folders + f) <= folders.len(),
        !is_verbatim(folders + f),
{
    let s = folders + f;
    if folders.len() == 1 {
        assert(s[1] == f[0]);
        assert(!separates(f[0]));
    } else {
        assert(s[1] == folders[1]);
    }
    assert(s[0] == folders[0]);
    assert(prefix_len(s) == 0 || prefix_len(s) == 2);
    if prefix_len(s) == 2 && folders.len() == 2 {
        assert(s[1] == folders.last());
    }
}

/// A plain file name is the name of the file that it leads to.
pub proof fn law_a_name_without_folders(f: Seq<char>)
    requires
        is_plain(f),
    ensures
        name_in(f) == Some(f),
{
    let none = Seq::<char>::empty();
    assert(none + f =~= f);
    lemma_prefix_not_negative(f);
    assert(!separates(f[0]));
    assert(body_start(f) == 0);
    law_folders_do_not_change_the_name(none, f);
}

/// The last dot of a name parts it into its stem and its extension, unless the name begins with
/// it.
pub proof fn law_the_last_dot_parts_a_name(stem: Seq<char>, ext: Seq<char>)
    requires
        stem.len() > 0,
        forall|i: int| 0 <= i < ext.len() ==> #[trigger] ext[i] != '.',
    ensures
        stem_of(stem + seq!['.'] + ext) == stem,
        extension_of(stem + seq!['.'] + ext) == Some(ext),
{
    let name = stem + seq!['.'] + ext;
    lemma_dot_at(name, stem.len() as int);
    assert(name.take(stem.len() as int) =~= stem);
    assert(name.skip(stem.len() as int + 1) =~= ext);
}

proof fn lemma_dot_at(name: Seq<char>, dot: int)
    requires
        0 < dot < name.len(),
        name[dot] == '.',
        forall|i: int| dot < i < name.len() ==> #[trigger] name[i] != '.',
    ensures
        extension_dot(name) == Some(dot),
    decreases name.len(),
{
    if dot < name.len() - 1 {
        assert(name.last() != '.');
        lemma_dot_at(name.drop_last(), dot);
    }
}

/// A name without a dot, or with one at its beginning alone, is all stem.
pub proof fn law_a_name_without_a_dot_has_no_extension(name: Seq<char>)
    requires
        forall|i: int| 0 < i < name.len() ==> #[trigger] name[i] != '.',
    ensures
        stem_of(name) == name,
        extension_of(name) is None,
    decreases name.len(),
{
    if name.len() > 1 {
        assert(name.last() != '.');
        law_a_name_without_a_dot_has_no_extension(name.drop_last());
    }
}

} // verus!
