//! The local asset references of a markdown text: the targets of its image
//! embeds `![alt](target)` and links `[label](target)`.
//!
//! A part ends at the first `]` or `)` that follows its opening, so a target
//! cannot hold `)`. Matches are found leftmost first and do not overlap, each
//! kind in a scan of its own.
use vstd::prelude::*;
use crate::path::{free_of, texts};
use crate::text::{chars_of, string_of};

verus! {

/// The index of the first `c` in `s` at or after `from`; `s.len()` where
/// there is none.
pub open spec fn find_from(s: Seq<char>, c: char, from: int) -> int
    decreases s.len() - from,
{
    if from < 0 || from >= s.len() {
        s.len() as int
    } else if s[from] == c {
        from
    } else {
        find_from(s, c, from + 1)
    }
}

/// A bracketed part that opens at `at`: `[`, a label of at least
/// `min_label` characters up to the first `]`, then `(`, a target of at
/// least one character up to the first `)`. Gives the target's bounds.
pub open spec fn link_at(s: Seq<char>, at: int, min_label: int) -> Option<(int, int)> {
    let close = find_from(s, ']', at + 1);
    let end = find_from(s, ')', close + 2);
    if 0 <= at < s.len() && 0 <= min_label && s[at] == '[' && close - (at + 1) >= min_label
        && close + 1 < s.len() && s[close + 1] == '(' && end < s.len() && end > close + 2 {
        Some((close + 2, end))
    } else {
        None
    }
}

/// An image embed `![alt](target)` at `at`, or a link `[label](target)`
/// with a label that is not empty.
pub open spec fn match_at(s: Seq<char>, at: int, image: bool) -> Option<(int, int)> {
    if image {
        if 0 <= at < s.len() && s[at] == '!' {
            link_at(s, at + 1, 0)
        } else {
            None
        }
    } else {
        link_at(s, at, 1)
    }
}

/// The targets of the matches of one kind, scanning from `from`: at each
/// position a match is taken where one starts, and the scan goes on after
/// its closing `)`.
pub open spec fn targets_from(s: Seq<char>, from: int, image: bool) -> Seq<Seq<char>>
    decreases s.len() - from,
{
    if from < 0 || from >= s.len() {
        Seq::empty()
    } else {
        match match_at(s, from, image) {
            Some((a, b)) => seq![s.subrange(a, b)] + targets_from(s, b + 1, image),
            None => targets_from(s, from + 1, image),
        }
    }
}

/// The image targets, then the link targets, of a markdown text.
pub open spec fn all_targets(s: Seq<char>) -> Seq<Seq<char>> {
    targets_from(s, 0, true) + targets_from(s, 0, false)
}

/// The index of the first `c` in `s` at or after `from`.
fn find_char(s: &Vec<char>, c: char, from: usize) -> (r: usize)
    ensures
        r == find_from(s@, c, from as int),
        from <= s.len() ==> from <= r <= s.len(),
{
    let mut i = from;
    while i < s.len()
        invariant
            from <= i,
            find_from(s@, c, from as int) == find_from(s@, c, i as int),
        decreases s.len() - i,
    {
        if s[i] == c {
            return i;
        }
        i += 1;
    }
    s.len()
}

fn find_link(s: &Vec<char>, at: usize, min_label: usize) -> (r: Option<(usize, usize)>)
    ensures
        match r {
            Some((a, b)) => link_at(s@, at as int, min_label as int) == Some((a as int, b as int)),
            None => link_at(s@, at as int, min_label as int) is None,
        },
{
    if at >= s.len() || s[at] != '[' {
        return None;
    }
    let close = find_char(s, ']', at + 1);
    if close - (at + 1) < min_label || close >= s.len() || close + 1 >= s.len() || s[close + 1] != '(' {
        return None;
    }
    let end = find_char(s, ')', close + 2);
    if end >= s.len() || end <= close + 2 {
        return None;
    }
    Some((close + 2, end))
}

fn find_match(s: &Vec<char>, at: usize, image: bool) -> (r: Option<(usize, usize)>)
    requires
        at < s.len(),
    ensures
        match r {
            Some((a, b)) => match_at(s@, at as int, image) == Some((a as int, b as int)),
            None => match_at(s@, at as int, image) is None,
        },
{
    if image {
        if s[at] == '!' {
            find_link(s, at + 1, 0)
        } else {
            None
        }
    } else {
        find_link(s, at, 1)
    }
}

/// The targets of the matches of one kind, in the order of the text.
pub fn scan_targets(s: &Vec<char>, image: bool) -> (r: Vec<Vec<char>>)
    ensures
        texts(r@) == targets_from(s@, 0, image),
{
    let mut out: Vec<Vec<char>> = Vec::new();
    let mut pos: usize = 0;
    while pos < s.len()
        invariant
            pos <= s.len(),
            texts(out@) + targets_from(s@, pos as int, image) == targets_from(s@, 0, image),
        decreases s.len() - pos,
    {
        match find_match(s, pos, image) {
            Some((a, b)) => {
                let mut target: Vec<char> = Vec::new();
                let mut k = a;
                while k < b
                    invariant
                        a <= k <= b < s.len(),
                        target@ == s@.subrange(a as int, k as int),
                    decreases b - k,
                {
                    target.push(s[k]);
                    k += 1;
                    assert(target@ =~= s@.subrange(a as int, k as int));
                }
                let ghost before = texts(out@);
                out.push(target);
                assert(texts(out@) =~= before.push(s@.subrange(a as int, b as int)));
                assert(texts(out@) + targets_from(s@, b + 1, image) =~= before + targets_from(s@, pos as int, image));
                pos = b + 1;
            }
            None => {
                pos += 1;
            }
        }
    }
    assert(texts(out@) + targets_from(s@, pos as int, image) =~= texts(out@));
    out
}

/// Unicode's `White_Space` property, as `char::is_whitespace` tests it.
pub open spec fn is_white_space(c: char) -> bool {
    ('\u{9}' <= c && c <= '\u{d}') || c == ' ' || c == '\u{85}' || c == '\u{a0}' || c == '\u{1680}'
        || ('\u{2000}' <= c && c <= '\u{200a}') || c == '\u{2028}' || c == '\u{2029}'
        || c == '\u{202f}' || c == '\u{205f}' || c == '\u{3000}'
}

pub open spec fn trim_start(s: Seq<char>) -> Seq<char>
    decreases s.len(),
{
    if s.len() > 0 && is_white_space(s[0]) {
        trim_start(s.drop_first())
    } else {
        s
    }
}

pub open spec fn trim_end(s: Seq<char>) -> Seq<char>
    decreases s.len(),
{
    if s.len() > 0 && is_white_space(s.last()) {
        trim_end(s.drop_last())
    } else {
        s
    }
}

/// `s` without its leading and trailing white space.
pub open spec fn trimmed(s: Seq<char>) -> Seq<char> {
    trim_end(trim_start(s))
}

/// `t` without one enclosing pair of `<` and `>`, where it has one.
pub open spec fn unwrapped(t: Seq<char>) -> Seq<char> {
    if t.len() >= 2 && t[0] == '<' && t.last() == '>' {
        t.subrange(1, t.len() - 1)
    } else {
        t
    }
}

pub open spec fn has_prefix(t: Seq<char>, p: Seq<char>) -> bool {
    p.len() <= t.len() && t.take(p.len() as int) =~= p
}

/// A target that names no local file: a web page or a mail address.
pub open spec fn is_remote(t: Seq<char>) -> bool {
    has_prefix(t, seq!['h', 't', 't', 'p', ':', '/', '/'])
        || has_prefix(t, seq!['h', 't', 't', 'p', 's', ':', '/', '/'])
        || has_prefix(t, seq!['m', 'a', 'i', 'l', 't', 'o', ':'])
}

/// `t` with each `\` turned into `/`.
pub open spec fn slashed(t: Seq<char>) -> Seq<char> {
    t.map_values(|c: char| if c == '\\' { '/' } else { c })
}

/// The asset reference that a link target stands for: the target trimmed
/// and unwrapped, with forward slashes; none for a remote target.
pub open spec fn link_target_of(target: Seq<char>) -> Option<Seq<char>> {
    let t = unwrapped(trimmed(target));
    if is_remote(t) {
        None
    } else {
        Some(slashed(t))
    }
}

/// The asset references that some of the targets stand for.
pub open spec fn refs_of(targets: Seq<Seq<char>>) -> Set<Seq<char>> {
    Set::new(|x: Seq<char>| exists|i: int|
        0 <= i < targets.len() && #[trigger] link_target_of(targets[i]) == Some(x))
}

/// The asset references of a markdown text.
pub open spec fn asset_refs(markdown: Seq<char>) -> Set<Seq<char>> {
    refs_of(all_targets(markdown))
}

/// The texts of a sequence of strings.
pub open spec fn string_texts(v: Seq<String>) -> Seq<Seq<char>> {
    v.map_values(|x: String| x@)
}

/// Whether `c` is white space, as `char::is_whitespace` has it.
pub fn is_white_space_char(c: char) -> (r: bool)
    ensures
        r == is_white_space(c),
{
    ('\u{9}' <= c && c <= '\u{d}') || c == ' ' || c == '\u{85}' || c == '\u{a0}' || c == '\u{1680}'
        || ('\u{2000}' <= c && c <= '\u{200a}') || c == '\u{2028}' || c == '\u{2029}'
        || c == '\u{202f}' || c == '\u{205f}' || c == '\u{3000}'
}

fn trim_chars(s: &Vec<char>) -> (r: Vec<char>)
    ensures
        r@ == trimmed(s@),
{
    let mut i: usize = 0;
    assert(s@.subrange(0, s.len() as int) =~= s@);
    while i < s.len() && is_white_space_char(s[i])
        invariant
            i <= s.len(),
            trim_start(s@) == trim_start(s@.subrange(i as int, s.len() as int)),
        decreases s.len() - i,
    {
        assert(s@.subrange(i as int, s.len() as int).drop_first() =~= s@.subrange(i + 1, s.len() as int));
        i += 1;
    }
    let ghost t = s@.subrange(i as int, s.len() as int);
    assert(trim_start(s@) == t);
    let mut j: usize = s.len();
    while j > i && is_white_space_char(s[j - 1])
        invariant
            i <= j <= s.len(),
            t == s@.subrange(i as int, s.len() as int),
            trim_end(t) == trim_end(s@.subrange(i as int, j as int)),
        decreases j,
    {
        assert(s@.subrange(i as int, j as int).drop_last() =~= s@.subrange(i as int, j - 1));
        j -= 1;
    }
    let mut out: Vec<char> = Vec::new();
    let mut k = i;
    while k < j
        invariant
            i <= k <= j <= s.len(),
            out@ == s@.subrange(i as int, k as int),
        decreases j - k,
    {
        out.push(s[k]);
        k += 1;
        assert(out@ =~= s@.subrange(i as int, k as int));
    }
    out
}

fn starts_with_chars(t: &Vec<char>, p: &Vec<char>) -> (r: bool)
    ensures
        r == has_prefix(t@, p@),
{
    if p.len() > t.len() {
        return false;
    }
    let mut i: usize = 0;
    while i < p.len()
        invariant
            i <= p.len() <= t.len(),
            forall|k: int| 0 <= k < i ==> t@[k] == p@[k],
        decreases p.len() - i,
    {
        if t[i] != p[i] {
            assert(t@.take(p.len() as int)[i as int] != p@[i as int]);
            return false;
        }
        i += 1;
    }
    assert(t@.take(p.len() as int) =~= p@);
    true
}

fn target_of_chars(target: &Vec<char>) -> (r: Option<Vec<char>>)
    ensures
        match r {
            Some(x) => link_target_of(target@) == Some(x@),
            None => link_target_of(target@) is None,
        },
{
    let t0 = trim_chars(target);
    let t = if t0.len() >= 2 && t0[0] == '<' && t0[t0.len() - 1] == '>' {
        let mut inner: Vec<char> = Vec::new();
        let mut k: usize = 1;
        while k < t0.len() - 1
            invariant
                1 <= k <= t0.len() - 1,
                t0.len() >= 2,
                inner@ == t0@.subrange(1, k as int),
            decreases t0.len() - 1 - k,
        {
            inner.push(t0[k]);
            k += 1;
            assert(inner@ =~= t0@.subrange(1, k as int));
        }
        inner
    } else {
        t0
    };
    assert(t@ == unwrapped(trimmed(target@)));
    let http = vec!['h', 't', 't', 'p', ':', '/', '/'];
    let https = vec!['h', 't', 't', 'p', 's', ':', '/', '/'];
    let mailto = vec!['m', 'a', 'i', 'l', 't', 'o', ':'];
    assert(http@ =~= seq!['h', 't', 't', 'p', ':', '/', '/']);
    assert(https@ =~= seq!['h', 't', 't', 'p', 's', ':', '/', '/']);
    assert(mailto@ =~= seq!['m', 'a', 'i', 'l', 't', 'o', ':']);
    if starts_with_chars(&t, &http) || starts_with_chars(&t, &https) || starts_with_chars(&t, &mailto) {
        return None;
    }
    let mut out: Vec<char> = Vec::new();
    let mut k: usize = 0;
    while k < t.len()
        invariant
            k <= t.len(),
            out@ == slashed(t@).take(k as int),
        decreases t.len() - k,
    {
        let c = t[k];
        out.push(if c == '\\' { '/' } else { c });
        k += 1;
        assert(out@ =~= slashed(t@).take(k as int));
    }
    assert(out@ =~= slashed(t@));
    Some(out)
}

/// The asset reference that a link target stands for: trimmed, without an
/// enclosing `<` `>`, with `\` turned into `/`. `None` for a target that
/// begins with `http://`, `https://` or `mailto:`.
pub fn normalize_link_target(target: &str) -> (r: Option<String>)
    ensures
        match r {
            Some(x) => link_target_of(target@) == Some(x@),
            None => link_target_of(target@) is None,
        },
{
    let t = chars_of(target);
    match target_of_chars(&t) {
        Some(x) => Some(string_of(&x)),
        None => None,
    }
}

/// Whether `v` holds a string with the text of `x`.
pub fn contains_text(v: &Vec<String>, x: &String) -> (r: bool)
    ensures
        r == string_texts(v@).contains(x@),
{
    let mut i: usize = 0;
    while i < v.len()
        invariant
            i <= v.len(),
            forall|k: int| 0 <= k < i ==> v@[k]@ != x@,
        decreases v.len() - i,
    {
        if v[i] == *x {
            assert(string_texts(v@)[i as int] == x@);
            return true;
        }
        i += 1;
    }
    assert forall|k: int| 0 <= k < string_texts(v@).len() implies string_texts(v@)[k] != x@ by {
        assert(v@[k]@ != x@);
    }
    false
}

/// Adds to `out` the references that `targets` stand for, each once.
fn add_refs(out: &mut Vec<String>, targets: &Vec<Vec<char>>)
    requires
        string_texts(old(out)@).no_duplicates(),
    ensures
        string_texts(final(out)@).no_duplicates(),
        string_texts(final(out)@).to_set() == string_texts(old(out)@).to_set() + refs_of(texts(targets@)),
{
    let ghost start = string_texts(out@).to_set();
    let mut i: usize = 0;
    while i < targets.len()
        invariant
            i <= targets.len(),
            start == string_texts(old(out)@).to_set(),
            string_texts(out@).no_duplicates(),
            string_texts(out@).to_set() == start + refs_of(texts(targets@).take(i as int)),
        decreases targets.len() - i,
    {
        let ghost before = string_texts(out@);
        let ghost seen = texts(targets@).take(i as int);
        assert(before.to_set() == start + refs_of(seen));
        assert(texts(targets@).take(i + 1) =~= seen.push(targets@[i as int]@));
        let ghost t = targets@[i as int]@;
        match target_of_chars(&targets[i]) {
            Some(x) => {
                let x = string_of(&x);
                let ghost xv = x@;
                if !contains_text(out, &x) {
                    out.push(x);
                    assert(string_texts(out@) =~= before.push(xv));
                    assert(string_texts(out@)[before.len() as int] == xv);
                }
                assert(string_texts(out@).contains(xv));
                assert(string_texts(out@) == before || string_texts(out@) == before.push(xv));
            }
            None => {}
        }
        assert(link_target_of(t) matches Some(y) ==> string_texts(out@).contains(y));
        assert(string_texts(out@) == before || (link_target_of(t) matches Some(y)
            && string_texts(out@) == before.push(y)));
        i += 1;
        let ghost now = texts(targets@).take(i as int);
        assert(now[i - 1] == t);
        assert(string_texts(out@).to_set() =~= start + refs_of(now)) by {
            assert forall|y: Seq<char>| start.contains(y) implies #[trigger] string_texts(out@).to_set().contains(y) by {
                assert(before.to_set().contains(y));
                let w = choose|w: int| 0 <= w < before.len() && before[w] == y;
                assert(string_texts(out@)[w] == y);
            }
            assert forall|y: Seq<char>| refs_of(now).contains(y) implies #[trigger] string_texts(out@).to_set().contains(y) by {
                let k = choose|k: int| 0 <= k < now.len() && #[trigger] link_target_of(now[k]) == Some(y);
                if k < i - 1 {
                    assert(seen[k] == now[k]);
                    assert(refs_of(seen).contains(y));
                    assert(before.to_set().contains(y));
                    let w = choose|w: int| 0 <= w < before.len() && before[w] == y;
                    assert(string_texts(out@)[w] == y);
                }
            }
            assert forall|y: Seq<char>| string_texts(out@).to_set().contains(y) implies
                start.contains(y) || #[trigger] refs_of(now).contains(y) by {
                let w = choose|w: int| 0 <= w < string_texts(out@).len() && string_texts(out@)[w] == y;
                if w < before.len() {
                    assert(before[w] == y);
                    assert(before.contains(y));
                    assert(before.to_set().contains(y));
                    if !start.contains(y) {
                        assert(refs_of(seen).contains(y));
                        let k = choose|k: int| 0 <= k < seen.len() && #[trigger] link_target_of(seen[k]) == Some(y);
                        assert(now[k] == seen[k]);
                    }
                } else {
                    assert(link_target_of(now[i - 1]) == Some(y));
                }
            }
        }
    }
    assert(texts(targets@).take(i as int) =~= texts(targets@));
}

/// The set of local asset references in a markdown text, each once, in no
/// particular order. A target is taken from every image embed and every link
/// with a label; an image's target, which the link scan finds too, is counted
/// once. Remote targets are left out.
pub fn extract_asset_paths(markdown: &str) -> (r: Vec<String>)
    ensures
        string_texts(r@).to_set() == asset_refs(markdown@),
        string_texts(r@).no_duplicates(),
{
    let md = chars_of(markdown);
    let images = scan_targets(&md, true);
    let links = scan_targets(&md, false);
    let mut out: Vec<String> = Vec::new();
    assert(string_texts(out@) =~= Seq::<Seq<char>>::empty());
    add_refs(&mut out, &images);
    add_refs(&mut out, &links);
    let ghost a = texts(images@);
    let ghost b = texts(links@);
    assert(string_texts(out@).to_set() =~= asset_refs(markdown@)) by {
        assert forall|y: Seq<char>| refs_of(a + b).contains(y) implies refs_of(a).contains(y) || refs_of(b).contains(y) by {
            let k = choose|k: int| 0 <= k < (a + b).len() && #[trigger] link_target_of((a + b)[k]) == Some(y);
            if k < a.len() {
                assert(link_target_of(a[k]) == Some(y));
            } else {
                assert(link_target_of(b[k - a.len()]) == Some(y));
            }
        }
        assert forall|y: Seq<char>| refs_of(a).contains(y) implies refs_of(a + b).contains(y) by {
            let k = choose|k: int| 0 <= k < a.len() && #[trigger] link_target_of(a[k]) == Some(y);
            assert((a + b)[k] == a[k]);
        }
        assert forall|y: Seq<char>| refs_of(b).contains(y) implies refs_of(a + b).contains(y) by {
            let k = choose|k: int| 0 <= k < b.len() && #[trigger] link_target_of(b[k]) == Some(y);
            assert((a + b)[k + a.len()] == b[k]);
        }
    }
    out
}

proof fn lemma_targets_free(s: Seq<char>, from: int, image: bool)
    requires
        free_of(s, '\\'),
    ensures
        forall|k: int| 0 <= k < targets_from(s, from, image).len() ==> free_of(
            #[trigger] targets_from(s, from, image)[k],
            '\\',
        ),
    decreases s.len() - from,
{
    if 0 <= from < s.len() {
        match match_at(s, from, image) {
            Some((a, b)) => {
                assert(0 <= a < b < s.len());
                lemma_targets_free(s, b + 1, image);
                let rest = targets_from(s, b + 1, image);
                assert(targets_from(s, from, image) == seq![s.subrange(a, b)] + rest);
                assert forall|k: int| 0 <= k < targets_from(s, from, image).len() implies free_of(
                    #[trigger] targets_from(s, from, image)[k], '\\') by {
                    if k == 0 {
                        let t = s.subrange(a, b);
                        assert forall|i: int| 0 <= i < t.len() implies t[i] != '\\' by {
                            assert(t[i] == s[a + i]);
                        }
                    } else {
                        assert(targets_from(s, from, image)[k] == rest[k - 1]);
                    }
                }
            }
            None => {
                lemma_targets_free(s, from + 1, image);
                assert(targets_from(s, from, image) == targets_from(s, from + 1, image));
            }
        }
    }
}

proof fn lemma_trim_start_free(s: Seq<char>)
    requires
        free_of(s, '\\'),
    ensures
        free_of(trim_start(s), '\\'),
    decreases s.len(),
{
    if s.len() > 0 && is_white_space(s[0]) {
        assert forall|i: int| 0 <= i < s.drop_first().len() implies s.drop_first()[i] != '\\' by {
            assert(s.drop_first()[i] == s[i + 1]);
        }
        lemma_trim_start_free(s.drop_first());
    }
}

proof fn lemma_trim_end_free(s: Seq<char>)
    requires
        free_of(s, '\\'),
    ensures
        free_of(trim_end(s), '\\'),
    decreases s.len(),
{
    if s.len() > 0 && is_white_space(s.last()) {
        assert forall|i: int| 0 <= i < s.drop_last().len() implies s.drop_last()[i] != '\\' by {
            assert(s.drop_last()[i] == s[i]);
        }
        lemma_trim_end_free(s.drop_last());
    }
}

/// No asset reference of a markdown text without backslashes begins with
/// `http://`, `https://` or `mailto:`. Text with backslashes is left out
/// because the remote test comes before `\\` is turned into `/`: the target
/// `http:\\x` is local, and stands for the reference `http://x`.
pub proof fn lemma_refs_not_remote(markdown: Seq<char>)
    requires
        free_of(markdown, '\\'),
    ensures
        forall|x: Seq<char>| #[trigger] asset_refs(markdown).contains(x) ==> !is_remote(x),
{
    lemma_targets_free(markdown, 0, true);
    lemma_targets_free(markdown, 0, false);
    let all = all_targets(markdown);
    assert forall|x: Seq<char>| #[trigger] asset_refs(markdown).contains(x) implies !is_remote(x) by {
        let k = choose|k: int| 0 <= k < all.len() && #[trigger] link_target_of(all[k]) == Some(x);
        let a = targets_from(markdown, 0, true);
        if k < a.len() {
            assert(all[k] == a[k]);
        } else {
            assert(all[k] == targets_from(markdown, 0, false)[k - a.len()]);
        }
        let t = all[k];
        assert(free_of(t, '\\'));
        lemma_trim_start_free(t);
        lemma_trim_end_free(trim_start(t));
        let u = unwrapped(trimmed(t));
        assert(free_of(u, '\\')) by {
            if u != trimmed(t) {
                assert forall|i: int| 0 <= i < u.len() implies u[i] != '\\' by {
                    assert(u[i] == trimmed(t)[i + 1]);
                }
            }
        }
        assert(slashed(u) =~= u);
    }
}

} // verus!