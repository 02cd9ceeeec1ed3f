//! What is kept of an editing session from one run to the next.

use crate::cache::texts;
use crate::doubles::{
    in_seconds, lemma_in_seconds, lemma_signed_double, signed_double, to_double, to_seconds, PARTS,
};
use crate::editor::{as_i64, as_time};
use crate::text::same_text;
use crate::times::MILLISECOND;
use vstd::prelude::*;

verus! {

/// What is kept of a recording.
pub struct Saved {
    /// The split points, in nanoseconds.
    pub marks: Vec<i64>,
    /// The folder for the tracks.
    pub out_dir: String,
}

/// The contents of what is kept of a recording.
pub ghost struct SavedView {
    pub marks: Seq<i64>,
    pub out_dir: Seq<char>,
}

impl View for Saved {
    type V = SavedView;

    open spec fn view(&self) -> SavedView {
        SavedView { marks: self.marks@, out_dir: self.out_dir@ }
    }
}

/// A thousand times the seconds of a time, as a double.
pub open spec fn in_milliseconds(t: int) -> int {
    signed_double(1000 * in_seconds(t), 1)
}

/// The nearest whole millisecond, and the one further from zero of two that are as near.
pub open spec fn to_millisecond(t: int) -> int {
    let x = in_milliseconds(t);
    as_time(
        if x < 0 {
            -((PARTS / 2 - x) / PARTS as int * MILLISECOND)
        } else {
            (x + PARTS / 2) / PARTS as int * MILLISECOND
        },
    )
}

fn rounded(t: i64) -> (r: i64)
    ensures
        r == to_millisecond(t as int),
{
    let x: i128 = to_double(1000 * to_seconds(t), 1);
    let size: u128 = if x < 0 {
        (-x) as u128
    } else {
        x as u128
    };
    let whole: i128 = ((size + PARTS / 2) / PARTS) as i128 * MILLISECOND as i128;
    as_i64(
        if x < 0 {
            -whole
        } else {
            whole
        },
    )
}

/// What is kept of a recording with these marks.
pub open spec fn kept(marks: Seq<i64>, out_dir: Seq<char>) -> SavedView {
    SavedView { marks: marks.map_values(|m: i64| to_millisecond(m as int) as i64), out_dir }
}

/// What is kept of a recording: the marks to the nearest millisecond, and the folder.
pub fn to_keep(marks: &Vec<i64>, out_dir: &str) -> (r: Saved)
    ensures
        r@ == kept(marks@, out_dir@),
{
    let mut v: Vec<i64> = Vec::new();
    let mut i: usize = 0;
    let ghost f = |m: i64| to_millisecond(m as int) as i64;
    while i < marks.len()
        invariant
            i <= marks@.len(),
            f == (|m: i64| to_millisecond(m as int) as i64),
            v@ == marks@.take(i as int).map_values(f),
        decreases marks@.len() - i,
    {
        v.push(rounded(marks[i]));
        assert(v@ =~= marks@.take(i + 1).map_values(f));
        i = i + 1;
    }
    assert(marks@.take(marks@.len() as int) =~= marks@);
    Saved { marks: v, out_dir: out_dir.to_owned() }
}

/// What is kept, by the path of the recording.
pub struct State {
    pub entries: Vec<(String, Saved)>,
}

impl View for State {
    type V = Map<Seq<char>, SavedView>;

    open spec fn view(&self) -> Map<Seq<char>, SavedView> {
        contents(self.entries@)
    }
}

/// Whether an entry is for a path.
pub open spec fn stands_at(entries: Seq<(String, Saved)>, key: Seq<char>, i: int) -> bool {
    0 <= i < entries.len() && entries[i].0@ == key
}

/// What entries keep, by path.
pub open spec fn contents(entries: Seq<(String, Saved)>) -> Map<Seq<char>, SavedView> {
    Map::new(
        |key: Seq<char>| exists|i: int| stands_at(entries, key, i),
        |key: Seq<char>| entries[choose|i: int| stands_at(entries, key, i)].1@,
    )
}

impl State {
    /// Whether no path occurs twice.
    pub open spec fn valid(&self) -> bool {
        forall|i: int, j: int|
            0 <= i < j < self.entries@.len() ==> (#[trigger] self.entries@[i]).0@ != (
            #[trigger] self.entries@[j]).0@
    }

    /// Nothing.
    pub fn new() -> (r: Self)
        ensures
            r.valid(),
            r@ == Map::<Seq<char>, SavedView>::empty(),
    {
        let r = State { entries: Vec::new() };
        assert(r@ =~= Map::<Seq<char>, SavedView>::empty());
        r
    }

    /// The place of a path.
    fn find(&self, key: &str) -> (r: Option<usize>)
        ensures
            match r {
                Some(i) => stands_at(self.entries@, key@, i as int),
                None => forall|i: int| !stands_at(self.entries@, key@, i),
            },
    {
        let mut i: usize = 0;
        while i < self.entries.len()
            invariant
                i <= self.entries@.len(),
                forall|j: int| 0 <= j < i ==> (#[trigger] self.entries@[j]).0@ != key@,
            decreases self.entries@.len() - i,
        {
            if same_text(&self.entries[i].0, key) {
                return Some(i);
            }
            i = i + 1;
        }
        None
    }

    /// What is kept of the recording at a path.
    pub fn get(&self, key: &str) -> (r: Option<Saved>)
        requires
            self.valid(),
        ensures
            match r {
                Some(saved) => self@.dom().contains(key@) && saved@ == self@[key@],
                None => !self@.dom().contains(key@),
            },
    {
        match self.find(key) {
            Some(i) => {
                let saved = &self.entries[i].1;
                let mut marks: Vec<i64> = Vec::new();
                let mut k: usize = 0;
                while k < saved.marks.len()
                    invariant
                        k <= saved.marks@.len(),
                        marks@ == saved.marks@.take(k as int),
                    decreases saved.marks@.len() - k,
                {
                    marks.push(saved.marks[k]);
                    k = k + 1;
                    assert(marks@ =~= saved.marks@.take(k as int));
                }
                proof {
                    assert(saved.marks@.take(saved.marks@.len() as int) =~= saved.marks@);
                    let at = choose|j: int| stands_at(self.entries@, key@, j);
                    assert(stands_at(self.entries@, key@, at));
                    assert(at == i);
                }
                Some(Saved { marks, out_dir: saved.out_dir.as_str().to_owned() })
            },
            None => None,
        }
    }

    /// Keeps something for the recording at a path, in place of what was kept.
    pub fn insert(&mut self, key: &str, saved: Saved)
        requires
            old(self).valid(),
        ensures
            final(self).valid(),
            final(self)@ == old(self)@.insert(key@, saved@),
    {
        let ghost before = self.entries@;
        let ghost kept = saved@;
        let entry: (String, Saved) = (key.to_owned(), saved);
        match self.find(key) {
            Some(i) => {
                self.entries.set(i, entry);
                proof {
                    lemma_contents(before, self.entries@, key@, kept, i as int);
                }
            },
            None => {
                self.entries.push(entry);
                proof {
                    assert(forall|i: int| 0 <= i < before.len() ==> !stands_at(before, key@, i));
                    assert forall|i: int| 0 <= i < before.len() implies (
                    #[trigger] before[i]).0@ != key@ by {
                        assert(!stands_at(before, key@, i));
                    }
                    lemma_contents(before, self.entries@, key@, kept, before.len() as int);
                }
            },
        }
    }
}

/// Entries that differ from others in one place only, which is that of a path.
proof fn lemma_contents(
    before: Seq<(String, Saved)>,
    after: Seq<(String, Saved)>,
    key: Seq<char>,
    saved: SavedView,
    at: int,
)
    requires
        0 <= at < after.len(),
        after.len() == before.len() || (after.len() == before.len() + 1 && at == before.len()),
        after[at].0@ == key,
        after[at].1@ == saved,
        forall|i: int| 0 <= i < after.len() && i != at ==> #[trigger] after[i] == before[i],
        at < before.len() ==> before[at].0@ == key,
        forall|i: int, j: int|
            0 <= i < j < after.len() ==> (#[trigger] after[i]).0@ != (#[trigger] after[j]).0@,
        forall|i: int, j: int|
            0 <= i < j < before.len() ==> (#[trigger] before[i]).0@ != (#[trigger] before[j]).0@,
    ensures
        contents(after) == contents(before).insert(key, saved),
{
    let (a, b) = (contents(after), contents(before).insert(key, saved));
    assert forall|k: Seq<char>| a.dom().contains(k) == b.dom().contains(k) by {
        if a.dom().contains(k) && k != key {
            let i = choose|i: int| stands_at(after, k, i);
            assert(after[i] == before[i]);
            assert(stands_at(before, k, i));
        }
        if b.dom().contains(k) {
            if k == key {
                assert(stands_at(after, k, at));
            } else {
                let i = choose|i: int| stands_at(before, k, i);
                assert(after[i] == before[i]);
                assert(stands_at(after, k, i));
            }
        }
    }
    assert forall|k: Seq<char>| a.dom().contains(k) implies a[k] == b[k] by {
        let i = choose|i: int| stands_at(after, k, i);
        if k == key {
            assert(stands_at(after, k, at));
            assert(i == at);
        } else {
            assert(after[i] == before[i]);
            assert(stands_at(before, k, i));
            let j = choose|j: int| stands_at(before, k, j);
            assert(i == j);
        }
    }
    assert(a =~= b);
}

/// Where the state is kept, as the folders that lead there and the name, where `local` is the
/// folder for local data, `home` that of the user and `temp` that for temporary files.
pub fn state_path_in(
    dir_name: &str,
    local: Option<String>,
    home: Option<String>,
    temp: String,
) -> (r: Vec<String>)
    ensures
        texts(r@) == match (local, home) {
            (Some(base), _) => seq![base@, dir_name@, "gui_state.json"@],
            (None, Some(base)) => seq![base@, ".cache"@, dir_name@, "gui_state.json"@],
            (None, None) => seq![temp@, dir_name@, "gui_state.json"@],
        },
{
    let mut r: Vec<String> = Vec::new();
    match (local, home) {
        (Some(base), _) => {
            r.push(base);
        },
        (None, Some(base)) => {
            r.push(base);
            r.push(".cache".to_owned());
        },
        (None, None) => {
            r.push(temp);
        },
    }
    r.push(dir_name.to_owned());
    r.push("gui_state.json".to_owned());
    assert(texts(r@) =~= match (local, home) {
        (Some(base), _) => seq![base@, dir_name@, "gui_state.json"@],
        (None, Some(base)) => seq![base@, ".cache"@, dir_name@, "gui_state.json"@],
        (None, None) => seq![temp@, dir_name@, "gui_state.json"@],
    });
    r
}

/// Where the state is kept.
pub fn state_path(local: Option<String>, home: Option<String>, temp: String) -> (r: Vec<String>)
    ensures
        texts(r@) == match (local, home) {
            (Some(base), _) => seq![base@, "radio-track-splitter"@, "gui_state.json"@],
            (None, Some(base)) => seq![
                base@,
                ".cache"@,
                "radio-track-splitter"@,
                "gui_state.json"@,
            ],
            (None, None) => seq![temp@, "radio-track-splitter"@, "gui_state.json"@],
        },
{
    state_path_in("radio-track-splitter", local, home, temp)
}

/// Rounding leaves whole milliseconds as they are.
pub proof fn lemma_whole_milliseconds(t: int)
    requires
        i64::MIN <= t <= i64::MAX,
        t % 1_000_000 == 0,
    ensures
        to_millisecond(t) == t,
{
    lemma_in_seconds(t);
    lemma_signed_double(1000 * in_seconds(t));
    let n = t / 1_000_000;
    let x = in_milliseconds(t);
    assert(t == n * 1_000_000);
    assert(-(PARTS / 2) < x - n * PARTS < PARTS / 2);
    if x < 0 {
        assert((PARTS / 2 - x) / PARTS as int == -n);
    } else {
        assert((x + PARTS / 2) / PARTS as int == n);
    }
}

/// Marks that were kept once are kept as they are. What is kept of a mark is off from it by half
/// a millisecond at most, and by what its milliseconds are off as a double.
pub proof fn law_kept_marks_stay(t: int)
    requires
        i64::MIN + 1_000_000 <= t <= i64::MAX - 1_000_000,
    ensures
        to_millisecond(to_millisecond(t)) == to_millisecond(t),
        t - 502_048 <= to_millisecond(t) <= t + 502_048,
{
    lemma_in_seconds(t);
    lemma_signed_double(1000 * in_seconds(t));
    lemma_whole_milliseconds(to_millisecond(t));
}

/// Marks are kept in whole milliseconds.
pub proof fn law_kept_marks_are_whole_milliseconds(t: int)
    requires
        i64::MIN + 1_000_000 <= t <= i64::MAX - 1_000_000,
    ensures
        to_millisecond(t) % 1_000_000 == 0,
{
    law_kept_marks_stay(t);
    lemma_in_seconds(t);
    lemma_signed_double(1000 * in_seconds(t));
}

} // verus!
