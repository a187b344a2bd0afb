//! Reconciliation of a note's asset directory against the references in
//! its text: which files are kept, which are orphaned.
use vstd::prelude::*;
use crate::markdown::{asset_refs, extract_asset_paths, string_texts};
use crate::path::{
    components, components_of, is_absolute, join_path, join_pieces, join_with, joined,
    normalize_relative_path, normalized, texts,
};
use crate::storage::{
    note_assets_dir, rejected_name, resolve_note_context, NoteContext, Settings, StorageError,
};
use crate::text::{chars_of, string_of};

verus! {

/// The comparable form of a reference: an absolute reference under the vault
/// root loses the root's components and is named by the rest; any other is
/// taken in its canonical form.
pub open spec fn reference_key(vault: Seq<char>, reference: Seq<char>) -> Seq<char> {
    let rc = components(reference);
    let vc = components(vault);
    if is_absolute(reference) && 0 < vc.len() <= rc.len() && rc.take(vc.len() as int) == vc {
        join_with(rc.skip(vc.len() as int), '/')
    } else {
        normalized(reference)
    }
}

/// The keys of all asset references of a markdown text: what a cleanup keeps.
pub open spec fn keep_set(vault: Seq<char>, markdown: Seq<char>) -> Set<Seq<char>> {
    Set::new(|k: Seq<char>| exists|r: Seq<char>| asset_refs(markdown).contains(r) && #[trigger] reference_key(vault, r) == k)
}

/// The comparable form of a file in a note's asset directory.
pub open spec fn asset_key(assets_dir_relative: Seq<char>, file_name: Seq<char>) -> Seq<char> {
    normalized(joined(assets_dir_relative, file_name))
}

/// Whether a file of the asset directory is kept.
pub open spec fn is_kept(assets_dir_relative: Seq<char>, keep: Set<Seq<char>>) -> spec_fn(Seq<char>) -> bool {
    |n: Seq<char>| keep.contains(asset_key(assets_dir_relative, n))
}

/// Whether a file of the asset directory is orphaned.
pub open spec fn is_orphan(assets_dir_relative: Seq<char>, keep: Set<Seq<char>>) -> spec_fn(Seq<char>) -> bool {
    |n: Seq<char>| !keep.contains(asset_key(assets_dir_relative, n))
}

/// The files of the list that no reference keeps.
pub open spec fn orphans(assets_dir_relative: Seq<char>, keep: Set<Seq<char>>, names: Seq<Seq<char>>) -> Seq<Seq<char>> {
    names.filter(is_orphan(assets_dir_relative, keep))
}

/// The files of the list that some reference keeps.
pub open spec fn survivors(assets_dir_relative: Seq<char>, keep: Set<Seq<char>>, names: Seq<Seq<char>>) -> Seq<Seq<char>> {
    names.filter(is_kept(assets_dir_relative, keep))
}

fn same_chars(a: &Vec<char>, b: &Vec<char>) -> (r: bool)
    ensures
        r == (a@ == b@),
{
    if a.len() != b.len() {
        return false;
    }
    let mut i: usize = 0;
    while i < a.len()
        invariant
            i <= a.len() == b.len(),
            forall|k: int| 0 <= k < i ==> a@[k] == b@[k],
        decreases a.len() - i,
    {
        if a[i] != b[i] {
            return false;
        }
        i += 1;
    }
    assert(a@ =~= b@);
    true
}

/// The comparable form of a reference, for the vault rooted at `vault_path`.
pub fn reference_key_of(vault_path: &str, reference: &str) -> (r: String)
    ensures
        r@ == reference_key(vault_path@, reference@),
{
    let rp = chars_of(reference);
    if rp.len() > 0 && rp[0] == '/' {
        let rc = components_of(&rp);
        let vc = components_of(&chars_of(vault_path));
        if 0 < vc.len() && vc.len() <= rc.len() {
            let mut i: usize = 0;
            while i < vc.len()
                invariant
                    i <= vc.len() <= rc.len(),
                    rp@ == reference@,
                    texts(rc@) == components(reference@),
                    texts(vc@) == components(vault_path@),
                    forall|k: int| 0 <= k < i ==> texts(rc@)[k] == texts(vc@)[k],
                decreases vc.len() - i,
            {
                if !same_chars(&rc[i], &vc[i]) {
                    assert(texts(rc@).take(vc.len() as int)[i as int] != texts(vc@)[i as int]);
                    return normalize_relative_path(reference);
                }
                i += 1;
            }
            assert(texts(rc@).take(vc.len() as int) =~= texts(vc@));
            let mut rest: Vec<Vec<char>> = Vec::new();
            let mut k = vc.len();
            while k < rc.len()
                invariant
                    vc.len() <= k <= rc.len(),
                    texts(rest@) == texts(rc@).subrange(vc.len() as int, k as int),
                decreases rc.len() - k,
            {
                let ghost before = texts(rest@);
                let c = rc[k].clone();
                assert(c@ == texts(rc@)[k as int]);
                rest.push(c);
                assert(texts(rest@) =~= before.push(texts(rc@)[k as int]));
                k += 1;
                assert(texts(rest@) =~= texts(rc@).subrange(vc.len() as int, k as int));
            }
            assert(texts(rest@).take(rest.len() as int) =~= texts(rc@).skip(vc.len() as int));
            let joined_rest = join_pieces(&rest, rest.len(), '/');
            return string_of(&joined_rest);
        }
    }
    normalize_relative_path(reference)
}

/// The keys of the asset references of a markdown text, each once: the files
/// that a cleanup of the note keeps.
pub fn normalized_reference_set(settings: &Settings, markdown: &str) -> (r: Vec<String>)
    ensures
        string_texts(r@).to_set() == keep_set(settings.vault_path@, markdown@),
        string_texts(r@).no_duplicates(),
{
    let refs = extract_asset_paths(markdown);
    let ghost all = string_texts(refs@);
    let ghost vault = settings.vault_path@;
    let mut out: Vec<String> = Vec::new();
    let mut i: usize = 0;
    assert(string_texts(out@) =~= Seq::<Seq<char>>::empty());
    while i < refs.len()
        invariant
            i <= refs.len(),
            all == string_texts(refs@),
            vault == settings.vault_path@,
            string_texts(out@).no_duplicates(),
            forall|k: Seq<char>| #[trigger] string_texts(out@).contains(k) <==> exists|j: int|
                0 <= j < i && #[trigger] reference_key(vault, all[j]) == k,
        decreases refs.len() - i,
    {
        let ghost before = string_texts(out@);
        let key = reference_key_of(settings.vault_path.as_str(), refs[i].as_str());
        let ghost kv = key@;
        assert(kv == reference_key(vault, all[i as int]));
        if !crate::markdown::contains_text(&out, &key) {
            out.push(key);
            assert(string_texts(out@) =~= before.push(kv));
            assert(string_texts(out@)[before.len() as int] == kv);
        }
        assert(string_texts(out@).contains(kv));
        assert(string_texts(out@) == before || string_texts(out@) == before.push(kv));
        i += 1;
        assert forall|k: Seq<char>| #[trigger] string_texts(out@).contains(k) <==> exists|j: int|
            0 <= j < i && #[trigger] reference_key(vault, all[j]) == k by {
            if string_texts(out@).contains(k) {
                let w = choose|w: int| 0 <= w < string_texts(out@).len() && string_texts(out@)[w] == k;
                if w < before.len() {
                    assert(before.contains(k));
                } else {
                    assert(reference_key(vault, all[i - 1]) == k);
                }
            }
            if exists|j: int| 0 <= j < i && #[trigger] reference_key(vault, all[j]) == k {
                let j = choose|j: int| 0 <= j < i && #[trigger] reference_key(vault, all[j]) == k;
                if j < i - 1 {
                    assert(before.contains(k));
                    let w = choose|w: int| 0 <= w < before.len() && before[w] == k;
                    assert(string_texts(out@)[w] == k);
                } else {
                    assert(string_texts(out@).contains(kv));
                }
            }
        }
    }
    assert(string_texts(out@).to_set() =~= keep_set(vault, markdown@)) by {
        assert forall|k: Seq<char>| keep_set(vault, markdown@).contains(k) implies string_texts(out@).contains(k) by {
            let r = choose|r: Seq<char>| asset_refs(markdown@).contains(r) && #[trigger] reference_key(vault, r) == k;
            assert(all.to_set().contains(r));
            let j = choose|j: int| 0 <= j < all.len() && all[j] == r;
            assert(reference_key(vault, all[j]) == k);
        }
        assert forall|k: Seq<char>| string_texts(out@).contains(k) implies keep_set(vault, markdown@).contains(k) by {
            let j = choose|j: int| 0 <= j < i && #[trigger] reference_key(vault, all[j]) == k;
            assert(all.contains(all[j]));
            assert(all.to_set().contains(all[j]));
        }
    }
    out
}

/// The files of the list that `keep` does not hold, in the list's order:
/// what a cleanup deletes from the note's asset directory.
pub fn files_to_delete(context: &NoteContext, keep: &Vec<String>, file_names: &Vec<String>) -> (r: Vec<String>)
    ensures
        string_texts(r@) == orphans(
            context.assets_dir_relative@,
            string_texts(keep@).to_set(),
            string_texts(file_names@),
        ),
{
    let ghost rel = context.assets_dir_relative@;
    let ghost keep_texts = string_texts(keep@).to_set();
    let ghost names = string_texts(file_names@);
    let mut out: Vec<String> = Vec::new();
    let mut i: usize = 0;
    assert(names.take(0) =~= Seq::<Seq<char>>::empty());
    assert(string_texts(out@) =~= Seq::<Seq<char>>::empty());
    while i < file_names.len()
        invariant
            i <= file_names.len(),
            rel == context.assets_dir_relative@,
            keep_texts == string_texts(keep@).to_set(),
            names == string_texts(file_names@),
            string_texts(out@) == orphans(rel, keep_texts, names.take(i as int)),
        decreases file_names.len() - i,
    {
        let ghost before = string_texts(out@);
        assert(names.take(i + 1) =~= names.take(i as int).push(names[i as int]));
        proof {
            names.take(i as int).lemma_filter_push(names[i as int], is_orphan(rel, keep_texts));
        }
        let path = join_path(context.assets_dir_relative.as_str(), file_names[i].as_str());
        let key = normalize_relative_path(path.as_str());
        if !crate::markdown::contains_text(keep, &key) {
            out.push(file_names[i].clone());
            assert(string_texts(out@) =~= before.push(names[i as int]));
        }
        i += 1;
    }
    assert(names.take(i as int) =~= names);
    out
}

/// The cleanup of a note's asset directory, given the names of the files
/// directly in it: the names of the files to delete, those whose keys no
/// asset reference of the markdown holds. A note path without a date is
/// refused as `resolve_note_context` refuses it.
pub fn plan_cleanup(settings: &Settings, note_path: &str, markdown: &str, file_names: &Vec<String>) -> (r: Result<Vec<String>, StorageError>)
    ensures
        match note_assets_dir(settings.assets_folder@, note_path@) {
            None => r matches Err(StorageError::InvalidNotePath(s)) && s@ == rejected_name(note_path@),
            Some(dir) => r matches Ok(v) && string_texts(v@) == orphans(
                dir,
                keep_set(settings.vault_path@, markdown@),
                string_texts(file_names@),
            ),
        },
{
    let context = match resolve_note_context(settings, note_path) {
        Ok(context) => context,
        Err(e) => return Err(e),
    };
    let keep = normalized_reference_set(settings, markdown);
    Ok(files_to_delete(&context, &keep, file_names))
}

/// A second cleanup with the same markdown deletes nothing: after the first,
/// every file left in the directory is kept.
pub proof fn lemma_cleanup_idempotent(assets_dir_relative: Seq<char>, keep: Set<Seq<char>>, names: Seq<Seq<char>>)
    ensures
        orphans(assets_dir_relative, keep, survivors(assets_dir_relative, keep, names)).len() == 0,
{
    let left = survivors(assets_dir_relative, keep, names);
    let again = orphans(assets_dir_relative, keep, left);
    if again.len() > 0 {
        left.lemma_filter_pred(is_orphan(assets_dir_relative, keep), 0);
        assert(again.contains(again[0]));
        left.lemma_filter_contains_rev(is_orphan(assets_dir_relative, keep), again[0]);
        let j = choose|j: int| 0 <= j < left.len() && left[j] == again[0];
        names.lemma_filter_pred(is_kept(assets_dir_relative, keep), j);
    }
}

/// The files that a cleanup leaves are exactly those that were there before
/// and that some reference keeps; it creates none.
pub proof fn lemma_cleanup_retains_referenced(assets_dir_relative: Seq<char>, keep: Set<Seq<char>>, names: Seq<Seq<char>>)
    ensures
        forall|n: Seq<char>| #[trigger] survivors(assets_dir_relative, keep, names).contains(n) <==> (
            names.contains(n) && keep.contains(asset_key(assets_dir_relative, n))),
{
    let pred = is_kept(assets_dir_relative, keep);
    assert forall|n: Seq<char>| #[trigger] survivors(assets_dir_relative, keep, names).contains(n) <==> (
        names.contains(n) && keep.contains(asset_key(assets_dir_relative, n))) by {
        if survivors(assets_dir_relative, keep, names).contains(n) {
            names.lemma_filter_contains_rev(pred, n);
            let j = choose|j: int| 0 <= j < names.filter(pred).len() && names.filter(pred)[j] == n;
            names.lemma_filter_pred(pred, j);
        }
        if names.contains(n) && keep.contains(asset_key(assets_dir_relative, n)) {
            let j = choose|j: int| 0 <= j < names.len() && names[j] == n;
            names.lemma_filter_contains(pred, j);
        }
    }
}

} // verus!
