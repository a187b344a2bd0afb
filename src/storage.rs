//! Settings, errors, and the resolution of a note's date-partitioned asset
//! directory.
use vstd::prelude::*;
use crate::path::{
    components, components_of, free_of, join_path, join_pieces, join_with, joined,
    lemma_split_concat, lemma_split_free, split_chars, split_on, texts,
};
use crate::text::{chars_of, string_of};

verus! {

/// What can go wrong in a storage operation.
#[derive(Debug, Clone, PartialEq, Eq)]
pub enum StorageError {
    /// The note's file name does not carry a `YYYY-MM-DD` date; holds that name.
    InvalidNotePath(String),
    /// A file system operation failed; holds its message.
    Io(String),
    /// An asset payload is not valid base64; holds the decoder's message.
    Decode(String),
    /// A file to open does not exist; holds its path.
    NotFound(String),
}

/// The configuration of a vault.
#[derive(Debug, Clone)]
pub struct Settings {
    pub vault_path: String,
    pub notes_folder: String,
    pub assets_folder: String,
    /// Accepted, not interpreted.
    pub naming_strategy: String,
    pub auto_cleanup_assets: bool,
}

/// Where the assets of one note live.
#[derive(Debug, Clone)]
pub struct NoteContext {
    /// The asset directory, under the vault root.
    pub assets_dir: String,
    /// The asset directory, relative to the vault root.
    pub assets_dir_relative: String,
}

/// The file name of a path: its last component, where that names a file
/// rather than the root, `.` or `..`.
pub open spec fn file_name_of(p: Seq<char>) -> Option<Seq<char>> {
    let c = components(p);
    if c.len() > 0 && c.last() != seq!['/'] && c.last() != seq!['.'] && c.last() != seq!['.', '.'] {
        Some(c.last())
    } else {
        None
    }
}

pub open spec fn is_date_char(c: char) -> bool {
    ('0' <= c && c <= '9') || c == '-'
}

/// The first three `-`-separated pieces of a file name, joined back with `-`.
pub open spec fn date_candidate(name: Seq<char>) -> Seq<char> {
    join_with(split_on(name, '-').take(3), '-')
}

/// The date token of a note's file name: its first three `-`-separated
/// pieces, where there are three, they hold only digits, and together they
/// are at least four characters long (the year is taken from the first four).
pub open spec fn date_of(name: Seq<char>) -> Option<Seq<char>> {
    let date = date_candidate(name);
    if split_on(name, '-').len() >= 3 && date.len() >= 4 && (forall|i: int|
        0 <= i < date.len() ==> is_date_char(#[trigger] date[i])) {
        Some(date)
    } else {
        None
    }
}

/// The asset directory of a date, relative to the vault:
/// `<assets>/<first four characters of the date>/<date>`.
pub open spec fn assets_dir_of(assets_folder: Seq<char>, date: Seq<char>) -> Seq<char> {
    joined(joined(assets_folder, date.take(4)), date)
}

/// The asset directory of a note, relative to the vault, where the note's
/// file name carries a date.
pub open spec fn note_assets_dir(assets_folder: Seq<char>, note_path: Seq<char>) -> Option<Seq<char>> {
    match file_name_of(note_path) {
        Some(name) => match date_of(name) {
            Some(date) => Some(assets_dir_of(assets_folder, date)),
            None => None,
        },
        None => None,
    }
}

/// What a refused note path is reported as: its file name, or the whole
/// path where it has none.
pub open spec fn rejected_name(note_path: Seq<char>) -> Seq<char> {
    match file_name_of(note_path) {
        Some(name) => name,
        None => note_path,
    }
}

/// The file name of a path, where it has one.
pub fn file_name(p: &Vec<char>) -> (r: Option<Vec<char>>)
    ensures
        match r {
            Some(name) => file_name_of(p@) == Some(name@),
            None => file_name_of(p@) is None,
        },
{
    let comps = components_of(p);
    if comps.len() == 0 {
        return None;
    }
    let last = &comps[comps.len() - 1];
    assert(texts(comps@).last() == last@);
    let is_root = last.len() == 1 && last[0] == '/';
    let is_cur = last.len() == 1 && last[0] == '.';
    let is_parent = last.len() == 2 && last[0] == '.' && last[1] == '.';
    assert(is_root == (last@ == seq!['/'])) by {
        if last.len() == 1 { assert(last@ =~= seq![last@[0]]); }
    }
    assert(is_cur == (last@ == seq!['.'])) by {
        if last.len() == 1 { assert(last@ =~= seq![last@[0]]); }
    }
    assert(is_parent == (last@ == seq!['.', '.'])) by {
        if last.len() == 2 { assert(last@ =~= seq![last@[0], last@[1]]); }
    }
    if is_root || is_cur || is_parent {
        None
    } else {
        Some(last.clone())
    }
}

/// The date token of a file name, where it has a valid one.
pub fn date_token(name: &Vec<char>) -> (r: Option<Vec<char>>)
    ensures
        match r {
            Some(date) => date_of(name@) == Some(date@),
            None => date_of(name@) is None,
        },
{
    let pieces = split_chars(name, '-');
    if pieces.len() < 3 {
        return None;
    }
    let date = join_pieces(&pieces, 3, '-');
    assert(date@ == date_candidate(name@));
    if date.len() < 4 {
        return None;
    }
    let mut i: usize = 0;
    while i < date.len()
        invariant
            i <= date.len(),
            4 <= date.len(),
            date@ == date_candidate(name@),
            split_on(name@, '-').len() >= 3,
            forall|j: int| 0 <= j < i ==> is_date_char(#[trigger] date@[j]),
        decreases date.len() - i,
    {
        let c = date[i];
        if !(('0' <= c && c <= '9') || c == '-') {
            assert(!is_date_char(date_candidate(name@)[i as int]));
            return None;
        }
        i += 1;
    }
    Some(date)
}

/// Derives the asset directory of a note from the date that opens its file
/// name. A note `.../2024-01-05-trip.md` keeps its assets in
/// `<assets>/2024/2024-01-05`. A file name without such a date is refused:
/// the error holds the whole path where it has no file name, else the name.
pub fn resolve_note_context(settings: &Settings, note_path: &str) -> (r: Result<NoteContext, StorageError>)
    ensures
        match file_name_of(note_path@) {
            None => r matches Err(StorageError::InvalidNotePath(s)) && s@ == note_path@,
            Some(name) => match date_of(name) {
                None => r matches Err(StorageError::InvalidNotePath(s)) && s@ == name,
                Some(date) => r matches Ok(ctx)
                    && ctx.assets_dir_relative@ == assets_dir_of(settings.assets_folder@, date)
                    && ctx.assets_dir@ == joined(settings.vault_path@, ctx.assets_dir_relative@),
            },
        },
{
    let p = chars_of(note_path);
    let name = match file_name(&p) {
        Some(name) => name,
        None => return Err(StorageError::InvalidNotePath(string_of(&p))),
    };
    let date = match date_token(&name) {
        Some(date) => date,
        None => return Err(StorageError::InvalidNotePath(string_of(&name))),
    };
    let mut year: Vec<char> = Vec::new();
    let mut i: usize = 0;
    while i < 4
        invariant
            i <= 4 <= date.len(),
            year@ == date@.take(i as int),
        decreases 4 - i,
    {
        year.push(date[i]);
        i += 1;
        assert(year@ =~= date@.take(i as int));
    }
    let year_text = string_of(&year);
    let date_text = string_of(&date);
    let by_year = join_path(settings.assets_folder.as_str(), year_text.as_str());
    let assets_dir_relative = join_path(by_year.as_str(), date_text.as_str());
    let assets_dir = join_path(settings.vault_path.as_str(), assets_dir_relative.as_str());
    Ok(NoteContext { assets_dir, assets_dir_relative })
}

/// A path under the vault root; an absolute path stays as it is.
pub fn vault_absolute_path(settings: &Settings, relative: &str) -> (r: String)
    ensures
        r@ == joined(settings.vault_path@, relative@),
{
    join_path(settings.vault_path.as_str(), relative)
}

pub open spec fn all_digits(s: Seq<char>) -> bool {
    forall|i: int| 0 <= i < s.len() ==> '0' <= #[trigger] s[i] && s[i] <= '9'
}

/// Whether a file name has three `-`-separated pieces and the first three
/// hold only digits.
pub open spec fn first_three_numeric(name: Seq<char>) -> bool {
    let pieces = split_on(name, '-');
    pieces.len() >= 3 && all_digits(pieces[0]) && all_digits(pieces[1]) && all_digits(pieces[2])
}

proof fn lemma_join_three(a: Seq<char>, b: Seq<char>, c: Seq<char>, pieces: Seq<Seq<char>>)
    requires
        pieces.len() >= 3,
        pieces[0] == a,
        pieces[1] == b,
        pieces[2] == c,
    ensures
        join_with(pieces.take(3), '-') == a.push('-') + b.push('-') + c,
{
    let t = pieces.take(3);
    assert(t.drop_last() =~= seq![a, b]);
    assert(seq![a, b].drop_last() =~= seq![a]);
    assert(join_with(seq![a], '-') == a);
    assert(join_with(seq![a, b], '-') == a.push('-') + b);
    assert(join_with(t, '-') == (a.push('-') + b).push('-') + c);
    assert((a.push('-') + b).push('-') + c =~= a.push('-') + b.push('-') + c);
}

/// A note whose file name opens with a date `YYYY-MM-DD`, followed by
/// nothing or by a `-` and anything, keeps its assets in
/// `<assets>/YYYY/YYYY-MM-DD`.
pub proof fn lemma_dated_note_resolves(
    assets_folder: Seq<char>,
    note_path: Seq<char>,
    year: Seq<char>,
    month: Seq<char>,
    day: Seq<char>,
    rest: Seq<char>,
)
    requires
        year.len() == 4,
        all_digits(year),
        all_digits(month),
        all_digits(day),
        rest.len() == 0 || rest[0] == '-',
        file_name_of(note_path) == Some(year.push('-') + month.push('-') + day + rest),
    ensures
        note_assets_dir(assets_folder, note_path) == Some(
            joined(joined(assets_folder, year), year.push('-') + month.push('-') + day),
        ),
{
    let name = year.push('-') + month.push('-') + day + rest;
    let date = year.push('-') + month.push('-') + day;
    assert(free_of(year, '-') && free_of(month, '-') && free_of(day, '-')) by {
        assert forall|i: int| 0 <= i < year.len() implies year[i] != '-' by { assert('0' <= year[i]); }
        assert forall|i: int| 0 <= i < month.len() implies month[i] != '-' by { assert('0' <= month[i]); }
        assert forall|i: int| 0 <= i < day.len() implies day[i] != '-' by { assert('0' <= day[i]); }
    }
    lemma_split_free(year, '-');
    lemma_split_free(month, '-');
    lemma_split_free(day, '-');
    let tail = if rest.len() == 0 { Seq::<Seq<char>>::empty() } else { split_on(rest.drop_first(), '-') };
    assert(split_on(day + rest, '-') == seq![day] + tail) by {
        if rest.len() == 0 {
            assert(day + rest =~= day);
            assert(seq![day] + tail =~= seq![day]);
        } else {
            assert(day + rest =~= day.push('-') + rest.drop_first());
            lemma_split_concat(day, rest.drop_first(), '-');
        }
    }
    assert(name =~= year.push('-') + (month.push('-') + (day + rest)));
    lemma_split_concat(year, month.push('-') + (day + rest), '-');
    lemma_split_concat(month, day + rest, '-');
    let pieces = split_on(name, '-');
    assert(pieces =~= seq![year] + (seq![month] + (seq![day] + tail)));
    assert(pieces[0] == year && pieces[1] == month && pieces[2] == day);
    lemma_join_three(year, month, day, pieces);
    assert(date_candidate(name) == date);
    assert forall|i: int| 0 <= i < date.len() implies is_date_char(#[trigger] date[i]) by {
        if i < 5 {
            if i < 4 { assert(date[i] == year[i]); }
        } else if i < 5 + month.len() {
            assert(date[i] == month[i - 5]);
        } else if i > 5 + month.len() {
            assert(date[i] == day[i - 6 - month.len()]);
        }
    }
    assert(date.take(4) =~= year);
}

/// A note whose file name does not open with three `-`-separated pieces of
/// digits (`draft-idea-notes.md`) is refused.
pub proof fn lemma_undated_note_refused(assets_folder: Seq<char>, note_path: Seq<char>, name: Seq<char>)
    requires
        file_name_of(note_path) == Some(name),
        !first_three_numeric(name),
    ensures
        note_assets_dir(assets_folder, note_path) is None,
{
    let pieces = split_on(name, '-');
    if pieces.len() >= 3 {
        let a = pieces[0];
        let b = pieces[1];
        let c = pieces[2];
        crate::path::lemma_split_pieces_free(name, '-');
        assert(free_of(pieces[0], '-') && free_of(pieces[1], '-') && free_of(pieces[2], '-'));
        lemma_join_three(a, b, c, pieces);
        let date = date_candidate(name);
        assert(date == a.push('-') + b.push('-') + c);
        if !all_digits(a) {
            let j = choose|j: int| 0 <= j < a.len() && !('0' <= a[j] && a[j] <= '9');
            assert(date[j] == a[j]);
            assert(!is_date_char(date[j]));
        } else if !all_digits(b) {
            let j = choose|j: int| 0 <= j < b.len() && !('0' <= b[j] && b[j] <= '9');
            assert(date[a.len() + 1 + j] == b[j]);
            assert(!is_date_char(date[a.len() + 1 + j]));
        } else {
            let j = choose|j: int| 0 <= j < c.len() && !('0' <= c[j] && c[j] <= '9');
            assert(date[a.len() + b.len() + 2 + j] == c[j]);
            assert(!is_date_char(date[a.len() + b.len() + 2 + j]));
        }
    }
}

} // verus!
