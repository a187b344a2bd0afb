//! Paths as text, with `/` as the separator. A path is read as `std::path`
//! reads it on Unix: a leading `/` is the root, a leading `.` the current
//! directory, and the other components are the pieces between separators
//! that are neither empty nor `.`. The canonical form of a path keeps only
//! what names it: one `/` where it is absolute, then its named pieces joined
//! with `/`.
use vstd::prelude::*;
use crate::text::{chars_of, push_all, string_of};

verus! {

/// `s` cut at every `sep`, as `str::split` cuts it: `n` separators give
/// `n + 1` pieces.
pub open spec fn split_on(s: Seq<char>, sep: char) -> Seq<Seq<char>>
    decreases s.len(),
{
    if s.len() == 0 {
        seq![Seq::empty()]
    } else {
        let pieces = split_on(s.drop_last(), sep);
        if s.last() == sep {
            pieces.push(Seq::empty())
        } else {
            pieces.update(pieces.len() - 1, pieces.last().push(s.last()))
        }
    }
}

/// The pieces joined, with `sep` between each two of them.
pub open spec fn join_with(parts: Seq<Seq<char>>, sep: char) -> Seq<char>
    decreases parts.len(),
{
    if parts.len() == 0 {
        Seq::empty()
    } else if parts.len() == 1 {
        parts[0]
    } else {
        join_with(parts.drop_last(), sep).push(sep) + parts.last()
    }
}

/// A piece between separators that names a component: not empty, not `.`.
pub open spec fn is_named(piece: Seq<char>) -> bool {
    piece.len() > 0 && piece != seq!['.']
}

/// `is_named` as a predicate value, for `Seq::filter`.
pub open spec fn named() -> spec_fn(Seq<char>) -> bool {
    |x: Seq<char>| is_named(x)
}

pub open spec fn is_absolute(p: Seq<char>) -> bool {
    p.len() > 0 && p[0] == '/'
}

/// A relative path that begins with the current directory: `.` or `./...`.
pub open spec fn starts_at_cur_dir(p: Seq<char>) -> bool {
    p =~= seq!['.'] || (p.len() >= 2 && p[0] == '.' && p[1] == '/')
}

/// The root or current-directory component that opens the path, if any.
pub open spec fn lead_component(p: Seq<char>) -> Seq<Seq<char>> {
    if is_absolute(p) {
        seq![seq!['/']]
    } else if starts_at_cur_dir(p) {
        seq![seq!['.']]
    } else {
        Seq::empty()
    }
}

/// The components of a path, each as its text.
pub open spec fn components(p: Seq<char>) -> Seq<Seq<char>> {
    lead_component(p) + split_on(p, '/').filter(named())
}

/// The named pieces of a path: those between separators that are neither
/// empty nor `.`.
pub open spec fn named_pieces(p: Seq<char>) -> Seq<Seq<char>> {
    split_on(p, '/').filter(named())
}

/// The canonical form of a path: `/` where it is absolute, then its named
/// pieces joined with `/`. Repeated separators, `.` pieces and a trailing
/// separator leave no trace, so paths that name the same place under the
/// same root read alike.
pub open spec fn normalized(p: Seq<char>) -> Seq<char> {
    if is_absolute(p) {
        seq!['/'] + join_with(named_pieces(p), '/')
    } else {
        join_with(named_pieces(p), '/')
    }
}

/// `part` appended to `base` as `Path::join` appends it: an absolute `part`
/// replaces `base`, and a separator is put between the two where `base` is
/// not empty and does not already end in one.
pub open spec fn joined(base: Seq<char>, part: Seq<char>) -> Seq<char> {
    if is_absolute(part) {
        part
    } else if base.len() == 0 || base.last() == '/' {
        base + part
    } else {
        base.push('/') + part
    }
}

pub proof fn lemma_split_nonempty(s: Seq<char>, sep: char)
    ensures
        split_on(s, sep).len() >= 1,
    decreases s.len(),
{
    if s.len() > 0 {
        lemma_split_nonempty(s.drop_last(), sep);
    }
}

/// Appends `piece` to `out` as the next of the pieces joined with `sep`;
/// `first` tells whether no piece came before.
fn append_piece(out: &mut Vec<char>, parts: Ghost<Seq<Seq<char>>>, first: bool, piece: &Vec<char>, sep: char)
    requires
        old(out)@ == join_with(parts@, sep),
        first == (parts@.len() == 0),
    ensures
        final(out)@ == join_with(parts@.push(piece@), sep),
{
    assert(parts@.push(piece@).drop_last() =~= parts@);
    if !first {
        out.push(sep);
    }
    push_all(out, piece);
}

/// The canonical text of a path: `/` where it is absolute, then its named
/// pieces joined with `/`.
pub fn normalize_relative_path(path: &str) -> (r: String)
    ensures
        r@ == normalized(path@),
{
    let p = chars_of(path);
    let mut out: Vec<char> = Vec::new();
    let mut first = true;
    let mut cur: Vec<char> = Vec::new();
    let mut i: usize = 0;
    assert(out@ =~= join_with(Seq::<Seq<char>>::empty(), '/'));
    while i < p.len()
        invariant
            i <= p.len(),
            split_on(p@.take(i as int), '/').len() >= 1,
            cur@ == split_on(p@.take(i as int), '/').last(),
            out@ == join_with(split_on(p@.take(i as int), '/').drop_last().filter(named()), '/'),
            first == (split_on(p@.take(i as int), '/').drop_last().filter(named()).len() == 0),
        decreases p.len() - i,
    {
        let ghost pre = p@.take(i as int);
        let ghost pieces = split_on(pre, '/');
        let ghost done = pieces.drop_last().filter(named());
        let c = p[i];
        i += 1;
        assert(p@.take(i as int).drop_last() =~= pre);
        if c == '/' {
            assert(split_on(p@.take(i as int), '/') == pieces.push(Seq::empty()));
            assert(pieces.push(Seq::empty()).drop_last() =~= pieces);
            assert(pieces.drop_last().push(pieces.last()) =~= pieces);
            proof { pieces.drop_last().lemma_filter_push(pieces.last(), named()); }
            if cur.len() > 0 && !(cur.len() == 1 && cur[0] == '.') {
                assert(is_named(cur@)) by {
                    if cur@ == seq!['.'] {
                        assert(cur@[0] == '.');
                    }
                }
                append_piece(&mut out, Ghost(done), first, &cur, '/');
                first = false;
            } else {
                assert(!is_named(cur@)) by {
                    if cur.len() == 1 {
                        assert(cur@ =~= seq!['.']);
                    }
                }
            }
            cur = Vec::new();
        } else {
            cur.push(c);
            assert(split_on(p@.take(i as int), '/').drop_last() =~= pieces.drop_last());
        }
        proof { lemma_split_nonempty(p@.take(i as int), '/'); }
    }
    assert(p@.take(i as int) =~= p@);
    let ghost pieces = split_on(p@, '/');
    let ghost done = pieces.drop_last().filter(named());
    assert(pieces.drop_last().push(pieces.last()) =~= pieces);
    proof { pieces.drop_last().lemma_filter_push(pieces.last(), named()); }
    if cur.len() > 0 && !(cur.len() == 1 && cur[0] == '.') {
        assert(is_named(cur@)) by {
            if cur@ == seq!['.'] {
                assert(cur@[0] == '.');
            }
        }
        append_piece(&mut out, Ghost(done), first, &cur, '/');
    } else {
        assert(!is_named(cur@)) by {
            if cur.len() == 1 {
                assert(cur@ =~= seq!['.']);
            }
        }
    }
    assert(out@ == join_with(named_pieces(p@), '/'));
    if p.len() > 0 && p[0] == '/' {
        let mut rooted: Vec<char> = vec!['/'];
        assert(rooted@ =~= seq!['/']);
        push_all(&mut rooted, &out);
        string_of(&rooted)
    } else {
        string_of(&out)
    }
}

/// The texts of a vector of character vectors.
pub open spec fn texts(v: Seq<Vec<char>>) -> Seq<Seq<char>> {
    v.map_values(|x: Vec<char>| x@)
}

/// `s` cut at every `sep`.
pub fn split_chars(s: &Vec<char>, sep: char) -> (r: Vec<Vec<char>>)
    ensures
        texts(r@) == split_on(s@, sep),
{
    let mut done: Vec<Vec<char>> = Vec::new();
    let mut cur: Vec<char> = Vec::new();
    let mut i: usize = 0;
    while i < s.len()
        invariant
            i <= s.len(),
            texts(done@).push(cur@) == split_on(s@.take(i as int), sep),
        decreases s.len() - i,
    {
        let ghost pre = s@.take(i as int);
        let c = s[i];
        i += 1;
        assert(s@.take(i as int).drop_last() =~= pre);
        if c == sep {
            let ghost old_done = done@;
            done.push(cur);
            cur = Vec::new();
            assert(texts(done@) =~= texts(old_done).push(texts(done@).last()));
            assert(texts(done@).push(cur@) =~= split_on(s@.take(i as int), sep));
        } else {
            cur.push(c);
            assert(texts(done@).push(cur@) =~= split_on(s@.take(i as int), sep));
        }
    }
    assert(s@.take(i as int) =~= s@);
    let ghost old_done = done@;
    done.push(cur);
    assert(texts(done@) =~= texts(old_done).push(texts(done@).last()));
    done
}

/// The first `n` pieces joined with `sep`.
pub fn join_pieces(parts: &Vec<Vec<char>>, n: usize, sep: char) -> (r: Vec<char>)
    requires
        n <= parts.len(),
    ensures
        r@ == join_with(texts(parts@).take(n as int), sep),
{
    let mut out: Vec<char> = Vec::new();
    let mut i: usize = 0;
    assert(texts(parts@).take(0) =~= Seq::<Seq<char>>::empty());
    while i < n
        invariant
            i <= n <= parts.len(),
            out@ == join_with(texts(parts@).take(i as int), sep),
        decreases n - i,
    {
        assert(texts(parts@).take(i + 1) =~= texts(parts@).take(i as int).push(parts[i as int]@));
        append_piece(&mut out, Ghost(texts(parts@).take(i as int)), i == 0, &parts[i], sep);
        i += 1;
    }
    out
}

/// The components of a path, each as its text.
pub fn components_of(p: &Vec<char>) -> (r: Vec<Vec<char>>)
    ensures
        texts(r@) == components(p@),
{
    let pieces = split_chars(p, '/');
    let ghost lead = lead_component(p@);
    let mut out: Vec<Vec<char>> = Vec::new();
    if p.len() > 0 && p[0] == '/' {
        let root = vec!['/'];
        assert(root@ =~= seq!['/']);
        out.push(root);
    } else if (p.len() == 1 && p[0] == '.') || (p.len() >= 2 && p[0] == '.' && p[1] == '/') {
        let cur_dir = vec!['.'];
        assert(cur_dir@ =~= seq!['.']);
        out.push(cur_dir);
        assert(starts_at_cur_dir(p@)) by {
            if p.len() == 1 {
                assert(p@ =~= seq!['.']);
            }
        }
    } else {
        assert(!starts_at_cur_dir(p@)) by {
            if p@ =~= seq!['.'] {
                assert(p@.len() == 1);
            }
        }
    }
    assert(texts(out@) =~= lead);
    let mut i: usize = 0;
    while i < pieces.len()
        invariant
            i <= pieces.len(),
            lead == lead_component(p@),
            texts(pieces@) == split_on(p@, '/'),
            texts(out@) == lead + texts(pieces@).take(i as int).filter(named()),
        decreases pieces.len() - i,
    {
        let ghost before = texts(pieces@).take(i as int);
        assert(texts(pieces@).take(i + 1) =~= before.push(pieces[i as int]@));
        proof { before.lemma_filter_push(pieces[i as int]@, named()); }
        let piece = &pieces[i];
        if piece.len() > 0 && !(piece.len() == 1 && piece[0] == '.') {
            assert(is_named(piece@)) by {
                if piece@ == seq!['.'] {
                    assert(piece@[0] == '.');
                }
            }
            let ghost old_out = out@;
            out.push(piece.clone());
            assert(texts(out@) =~= texts(old_out).push(piece@));
        } else {
            assert(!is_named(piece@)) by {
                if piece.len() == 1 {
                    assert(piece@ =~= seq!['.']);
                }
            }
        }
        i += 1;
    }
    assert(texts(pieces@).take(i as int) =~= texts(pieces@));
    out
}

/// `part` appended to `base` as `Path::join` appends it.
pub fn join_path(base: &str, part: &str) -> (r: String)
    ensures
        r@ == joined(base@, part@),
{
    let b = chars_of(base);
    let q = chars_of(part);
    if q.len() > 0 && q[0] == '/' {
        return string_of(&q);
    }
    let mut out = b;
    if out.len() > 0 && out[out.len() - 1] != '/' {
        out.push('/');
    }
    push_all(&mut out, &q);
    string_of(&out)
}

/// A text without the separator.
pub open spec fn free_of(s: Seq<char>, sep: char) -> bool {
    forall|i: int| 0 <= i < s.len() ==> s[i] != sep
}

/// Cutting a text with no separator gives the text itself.
pub proof fn lemma_split_free(s: Seq<char>, sep: char)
    requires
        free_of(s, sep),
    ensures
        split_on(s, sep) == seq![s],
    decreases s.len(),
{
    if s.len() > 0 {
        let init = s.drop_last();
        assert forall|i: int| 0 <= i < init.len() implies init[i] != sep by {
            assert(init[i] == s[i]);
        }
        lemma_split_free(init, sep);
        assert(s[s.len() - 1] != sep);
        assert(init.push(s.last()) =~= s);
        assert(split_on(s, sep) =~= seq![s]);
    } else {
        assert(s =~= Seq::<char>::empty());
        assert(split_on(s, sep) =~= seq![s]);
    }
}

/// Cutting `a`, a separator, then `b`, gives the pieces of `a`, then those of `b`.
pub proof fn lemma_split_concat(a: Seq<char>, b: Seq<char>, sep: char)
    ensures
        split_on(a.push(sep) + b, sep) == split_on(a, sep) + split_on(b, sep),
    decreases b.len(),
{
    lemma_split_nonempty(a, sep);
    if b.len() == 0 {
        assert(a.push(sep) + b =~= a.push(sep));
        assert((a.push(sep)).drop_last() =~= a);
        assert(split_on(a, sep) + split_on(b, sep) =~= split_on(a, sep).push(Seq::empty()));
    } else {
        lemma_split_concat(a, b.drop_last(), sep);
        lemma_split_nonempty(b.drop_last(), sep);
        assert((a.push(sep) + b).drop_last() =~= a.push(sep) + b.drop_last());
        let x = split_on(a, sep);
        let y = split_on(b.drop_last(), sep);
        if b.last() == sep {
            assert((x + y).push(Seq::empty()) =~= x + y.push(Seq::empty()));
        } else {
            assert((x + y).update((x + y).len() - 1, (x + y).last().push(b.last()))
                =~= x + y.update(y.len() - 1, y.last().push(b.last())));
        }
    }
}

/// Every piece of a cut is free of the separator.
pub proof fn lemma_split_pieces_free(s: Seq<char>, sep: char)
    ensures
        forall|k: int| 0 <= k < split_on(s, sep).len() ==> free_of(#[trigger] split_on(s, sep)[k], sep),
    decreases s.len(),
{
    if s.len() > 0 {
        lemma_split_pieces_free(s.drop_last(), sep);
        lemma_split_nonempty(s.drop_last(), sep);
    }
}

/// Joining pieces free of the separator, then cutting, gives the pieces back.
pub proof fn lemma_split_join(parts: Seq<Seq<char>>, sep: char)
    requires
        parts.len() >= 1,
        forall|k: int| 0 <= k < parts.len() ==> free_of(#[trigger] parts[k], sep),
    ensures
        split_on(join_with(parts, sep), sep) == parts,
    decreases parts.len(),
{
    if parts.len() == 1 {
        lemma_split_free(parts[0], sep);
        assert(seq![parts[0]] =~= parts);
    } else {
        let init = parts.drop_last();
        assert forall|k: int| 0 <= k < init.len() implies free_of(#[trigger] init[k], sep) by {
            assert(init[k] == parts[k]);
        }
        lemma_split_join(init, sep);
        lemma_split_concat(join_with(init, sep), parts.last(), sep);
        assert(free_of(parts[parts.len() - 1], sep));
        lemma_split_free(parts.last(), sep);
        assert(init + seq![parts.last()] =~= parts);
    }
}

/// Joining a first piece before others puts one separator after it.
pub proof fn lemma_join_front(a: Seq<char>, rest: Seq<Seq<char>>, sep: char)
    requires
        rest.len() >= 1,
    ensures
        join_with(seq![a] + rest, sep) == a.push(sep) + join_with(rest, sep),
    decreases rest.len(),
{
    let whole = seq![a] + rest;
    assert(whole.drop_last() =~= seq![a] + rest.drop_last());
    assert(whole.last() == rest.last());
    assert(join_with(seq![a], sep) == a);
    if rest.len() == 1 {
        assert(seq![a] + rest.drop_last() =~= seq![a]);
        assert(join_with(rest, sep) == rest[0]);
    } else {
        lemma_join_front(a, rest.drop_last(), sep);
        assert((a.push(sep) + join_with(rest.drop_last(), sep)).push(sep) + rest.last()
            =~= a.push(sep) + (join_with(rest.drop_last(), sep).push(sep) + rest.last()));
    }
}

/// Filtering keeps a sequence whose every element passes.
proof fn lemma_filter_all(s: Seq<Seq<char>>)
    requires
        forall|k: int| 0 <= k < s.len() ==> is_named(#[trigger] s[k]),
    ensures
        s.filter(named()) == s,
    decreases s.len(),
{
    if s.len() > 0 {
        let init = s.drop_last();
        assert forall|k: int| 0 <= k < init.len() implies is_named(#[trigger] init[k]) by {
            assert(init[k] == s[k]);
        }
        lemma_filter_all(init);
        init.lemma_filter_push(s.last(), named());
        assert(init.push(s.last()) =~= s);
    } else {
        reveal(Seq::filter);
    }
}

/// The named pieces of a path: named and free of `/`.
proof fn lemma_named_pieces(p: Seq<char>)
    ensures
        forall|k: int| 0 <= k < split_on(p, '/').filter(named()).len() ==> {
            &&& is_named(#[trigger] split_on(p, '/').filter(named())[k])
            &&& free_of(split_on(p, '/').filter(named())[k], '/')
        },
{
    let pieces = split_on(p, '/');
    let f = pieces.filter(named());
    lemma_split_pieces_free(p, '/');
    assert forall|k: int| 0 <= k < f.len() implies is_named(#[trigger] f[k]) && free_of(f[k], '/') by {
        pieces.lemma_filter_pred(named(), k);
        assert(f.contains(f[k]));
        pieces.lemma_filter_contains_rev(named(), f[k]);
        let j = choose|j: int| 0 <= j < pieces.len() && pieces[j] == f[k];
        assert(free_of(pieces[j], '/'));
    }
}

/// Normalizing a normalized path changes nothing: the canonical form, whose
/// separators are this platform's own, reads back as the same path.
pub proof fn lemma_normalize_idempotent(p: Seq<char>)
    ensures
        normalized(normalized(p)) == normalized(p),
{
    let f = named_pieces(p);
    let body = join_with(f, '/');
    let q = normalized(p);
    let empty = Seq::<char>::empty();
    assert(split_on(empty, '/') =~= seq![empty]);
    reveal_with_fuel(Seq::filter, 2);
    assert(seq![empty].filter(named()) =~= Seq::<Seq<char>>::empty());
    lemma_named_pieces(p);
    lemma_filter_all(f);
    if f.len() == 0 {
        assert(body =~= empty);
        assert(named_pieces(body) =~= Seq::<Seq<char>>::empty());
        if is_absolute(p) {
            assert(q =~= empty.push('/') + body);
            lemma_split_concat(empty, body, '/');
            assert(seq![empty] + seq![empty] =~= seq![empty, empty]);
            lemma_filter_concat(seq![empty], seq![empty]);
            assert(named_pieces(q) =~= Seq::<Seq<char>>::empty());
            assert(normalized(q) =~= q);
        }
    } else {
        lemma_split_join(f, '/');
        assert(named_pieces(body) == f);
        if f.len() > 1 {
            lemma_join_front(f[0], f.skip(1), '/');
            assert(seq![f[0]] + f.skip(1) =~= f);
        }
        assert(f[0].len() > 0 && free_of(f[0], '/'));
        assert(body[0] == f[0][0]);
        assert(!is_absolute(body));
        if is_absolute(p) {
            assert(q =~= empty.push('/') + body);
            lemma_split_concat(empty, body, '/');
            lemma_filter_concat(seq![empty], f);
            assert(named_pieces(q) =~= f);
        }
    }
}

proof fn lemma_filter_concat(a: Seq<Seq<char>>, b: Seq<Seq<char>>)
    ensures
        (a + b).filter(named()) == a.filter(named()) + b.filter(named()),
{
    Seq::filter_distributes_over_add(a, b, named());
}

} // verus!
