//! Naming, placing and decoding new asset files.
use vstd::prelude::*;
use base64::Engine;
use crate::path::{join_path, joined, normalize_relative_path};
use crate::reconcile::asset_key;
use crate::storage::{
    file_name, file_name_of, note_assets_dir, rejected_name, resolve_note_context, NoteContext,
    Settings, StorageError,
};
use crate::text::{chars_of, push_all, string_of};

verus! {

#[verifier::external_type_specification]
#[verifier::external_body]
pub struct ExDecodeError(base64::DecodeError);

/// What the standard base64 alphabet, with padding, decodes a text to; none
/// where the text is not valid base64.
pub uninterp spec fn base64_decoded(text: Seq<char>) -> Option<Seq<u8>>;

pub open spec fn is_lower_hex(c: char) -> bool {
    ('0' <= c && c <= '9') || ('a' <= c && c <= 'f')
}

/// A token of the shape of a hyphenated lower-case UUID: 36 characters,
/// `-` at indices 8, 13, 18 and 23, a lower-case hexadecimal digit elsewhere.
pub open spec fn is_token(t: Seq<char>) -> bool {
    t.len() == 36 && forall|i: int| 0 <= i < t.len() ==> if i == 8 || i == 13 || i == 18 || i == 23 {
        #[trigger] t[i] == '-'
    } else {
        is_lower_hex(t[i])
    }
}

pub open spec fn without_leading_dots(s: Seq<char>) -> Seq<char>
    decreases s.len(),
{
    if s.len() > 0 && s[0] == '.' {
        without_leading_dots(s.drop_first())
    } else {
        s
    }
}

/// `<prefix>_<token>.<extension>`, the extension without its leading dots.
pub open spec fn asset_file_name(prefix: Seq<char>, token: Seq<char>, extension: Seq<char>) -> Seq<char> {
    prefix.push('_') + token.push('.') + without_leading_dots(extension)
}

/// The index of the last `c` in `s`; -1 where there is none.
pub open spec fn last_index_of(s: Seq<char>, c: char) -> int
    decreases s.len(),
{
    if s.len() == 0 {
        -1
    } else if s.last() == c {
        s.len() - 1
    } else {
        last_index_of(s.drop_last(), c)
    }
}

/// The extension of a path, as `Path::extension` finds it: what follows the
/// last `.` of the file name, where something comes before that dot.
pub open spec fn extension_of(p: Seq<char>) -> Option<Seq<char>> {
    match file_name_of(p) {
        Some(name) => if last_index_of(name, '.') > 0 {
            Some(name.skip(last_index_of(name, '.') + 1))
        } else {
            None
        },
        None => None,
    }
}

/// Relies on `uuid::Uuid::new_v4` and `Uuid`'s `Display`, which writes a UUID
/// hyphenated in lower case: groups of 8, 4, 4, 4 and 12 hexadecimal digits
/// parted by `-`.
#[verifier::external_body]
fn random_token() -> (r: String)
    ensures
        is_token(r@),
{
    uuid::Uuid::new_v4().to_string()
}

/// Relies on `base64::Engine::decode` of the `STANDARD` engine: the bytes
/// that the text encodes, or an error where it is not valid base64. The
/// outcome depends on the text alone.
#[verifier::external_body]
fn decode_standard(text: &str) -> (r: Result<Vec<u8>, base64::DecodeError>)
    ensures
        match r {
            Ok(bytes) => base64_decoded(text@) == Some(bytes@),
            Err(_) => base64_decoded(text@) is None,
        },
{
    base64::engine::general_purpose::STANDARD.decode(text)
}

/// Relies on `base64::DecodeError`'s `Display`: a message for the error.
#[verifier::external_body]
fn decode_error_message(e: &base64::DecodeError) -> (r: String)
{
    e.to_string()
}

fn strip_leading_dots(s: &Vec<char>) -> (r: Vec<char>)
    ensures
        r@ == without_leading_dots(s@),
{
    let mut i: usize = 0;
    assert(s@.subrange(0, s.len() as int) =~= s@);
    while i < s.len() && s[i] == '.'
        invariant
            i <= s.len(),
            without_leading_dots(s@) == without_leading_dots(s@.subrange(i as int, s.len() as int)),
        decreases s.len() - i,
    {
        assert(s@.subrange(i as int, s.len() as int).drop_first() =~= s@.subrange(i + 1, s.len() as int));
        i += 1;
    }
    let mut out: Vec<char> = Vec::new();
    let mut k = i;
    while k < s.len()
        invariant
            i <= k <= s.len(),
            out@ == s@.subrange(i as int, k as int),
        decreases s.len() - k,
    {
        out.push(s[k]);
        k += 1;
        assert(out@ =~= s@.subrange(i as int, k as int));
    }
    out
}

/// The file name `<prefix>_<token>.<extension>`; leading dots of the
/// extension are dropped.
pub fn asset_name_with_token(prefix: &str, token: &str, extension: &str) -> (r: String)
    ensures
        r@ == asset_file_name(prefix@, token@, extension@),
{
    let mut out = chars_of(prefix);
    out.push('_');
    push_all(&mut out, &chars_of(token));
    out.push('.');
    push_all(&mut out, &strip_leading_dots(&chars_of(extension)));
    proof {
        let p = prefix@;
        let t = token@;
        assert(p.push('_') + t.push('.') + without_leading_dots(extension@) =~= p.push('_') + t + seq!['.'] + without_leading_dots(extension@));
    }
    string_of(&out)
}

/// A fresh file name `<prefix>_<token>.<extension>`, with a random UUID as
/// the token; leading dots of the extension are dropped.
pub fn unique_asset_name(prefix: &str, extension: &str) -> (r: String)
    ensures
        exists|token: Seq<char>| is_token(token) && r@ == asset_file_name(prefix@, token, extension@),
{
    let token = random_token();
    asset_name_with_token(prefix, token.as_str(), extension)
}

/// The extension of an attachment's original name; `bin` where it has none.
pub fn attachment_extension(original_name: &str) -> (r: String)
    ensures
        r@ == (match extension_of(original_name@) {
            Some(e) => e,
            None => seq!['b', 'i', 'n'],
        }),
{
    let p = chars_of(original_name);
    let fallback = vec!['b', 'i', 'n'];
    assert(fallback@ =~= seq!['b', 'i', 'n']);
    let name = match file_name(&p) {
        Some(name) => name,
        None => return string_of(&fallback),
    };
    let mut j: usize = name.len();
    assert(name@.take(j as int) =~= name@);
    while j > 0 && name[j - 1] != '.'
        invariant
            j <= name.len(),
            last_index_of(name@, '.') == last_index_of(name@.take(j as int), '.'),
        decreases j,
    {
        assert(name@.take(j as int).drop_last() =~= name@.take(j - 1));
        j -= 1;
    }
    if j <= 1 {
        assert(last_index_of(name@, '.') <= 0) by {
            if j == 1 {
                assert(name@.take(1).last() == '.');
            } else {
                assert(name@.take(0).len() == 0);
            }
        }
        return string_of(&fallback);
    }
    assert(name@.take(j as int).last() == '.');
    let mut ext: Vec<char> = Vec::new();
    let mut k = j;
    while k < name.len()
        invariant
            j <= k <= name.len(),
            ext@ == name@.subrange(j as int, k as int),
        decreases name.len() - k,
    {
        ext.push(name[k]);
        k += 1;
        assert(ext@ =~= name@.subrange(j as int, k as int));
    }
    assert(ext@ =~= name@.skip(j as int));
    string_of(&ext)
}

/// Decodes a base64 payload; a text that is not valid base64 gives
/// `StorageError::Decode` with the decoder's message.
pub fn decode_payload(payload: &str) -> (r: Result<Vec<u8>, StorageError>)
    ensures
        match base64_decoded(payload@) {
            Some(bytes) => r matches Ok(v) && v@ == bytes,
            None => r matches Err(StorageError::Decode(_)),
        },
{
    match decode_standard(payload) {
        Ok(bytes) => Ok(bytes),
        Err(e) => Err(StorageError::Decode(decode_error_message(&e))),
    }
}

/// The vault-relative path of a file in the note's asset directory, in
/// canonical form with `/` between components.
pub fn asset_relative_path(context: &NoteContext, file_name: &str) -> (r: String)
    ensures
        r@ == asset_key(context.assets_dir_relative@, file_name@),
{
    let path = join_path(context.assets_dir_relative.as_str(), file_name);
    normalize_relative_path(path.as_str())
}

/// Where a new asset of a note goes.
#[derive(Debug, Clone)]
pub struct AssetPlan {
    /// The note's asset directory, under the vault root.
    pub assets_dir: String,
    /// The new file's name.
    pub file_name: String,
    /// The new file, under the vault root.
    pub file_path: String,
    /// The new file, relative to the vault, in canonical form.
    pub relative_path: String,
}

/// Whether `r` is the plan for saving an asset named with `token` beside a
/// note, or the refusal of the note path.
pub open spec fn is_asset_plan(
    settings: Settings,
    note_path: Seq<char>,
    prefix: Seq<char>,
    extension: Seq<char>,
    token: Seq<char>,
    r: Result<AssetPlan, StorageError>,
) -> bool {
    match note_assets_dir(settings.assets_folder@, note_path) {
        None => r matches Err(StorageError::InvalidNotePath(s)) && s@ == rejected_name(note_path),
        Some(dir) => r matches Ok(plan)
            && plan.assets_dir@ == joined(settings.vault_path@, dir)
            && plan.file_name@ == asset_file_name(prefix, token, extension)
            && plan.file_path@ == joined(plan.assets_dir@, plan.file_name@)
            && plan.relative_path@ == asset_key(dir, plan.file_name@),
    }
}

/// Plans the saving of an asset beside a note: the note's asset directory,
/// the file name `<prefix>_<token>.<extension>`, the file's path under the
/// vault root and its canonical vault-relative path.
pub fn plan_asset_save(settings: &Settings, note_path: &str, prefix: &str, extension: &str, token: &str) -> (r: Result<AssetPlan, StorageError>)
    ensures
        is_asset_plan(*settings, note_path@, prefix@, extension@, token@, r),
{
    let context = match resolve_note_context(settings, note_path) {
        Ok(context) => context,
        Err(e) => return Err(e),
    };
    let file_name = asset_name_with_token(prefix, token, extension);
    let file_path = join_path(context.assets_dir.as_str(), file_name.as_str());
    let relative_path = asset_relative_path(&context, file_name.as_str());
    Ok(AssetPlan { assets_dir: context.assets_dir, file_name, file_path, relative_path })
}

/// Plans the saving of a new asset beside a note, named with a fresh random
/// UUID as its token.
pub fn plan_new_asset(settings: &Settings, note_path: &str, prefix: &str, extension: &str) -> (r: Result<AssetPlan, StorageError>)
    ensures
        exists|token: Seq<char>| is_token(token) && is_asset_plan(*settings, note_path@, prefix@, extension@, token, r),
{
    let token = random_token();
    plan_asset_save(settings, note_path, prefix, extension, token.as_str())
}

} // verus!
