//! Naming of the backup archives: where each archive goes, what it is
//! called and under which name a file is stored inside it, and which paths
//! are excluded from the backup.

use vstd::prelude::*;
use vstd::string::*;

use crate::text::{
    chars_of, contains_seq, join_with, seq_contains, last_index_of, lemma_last_index_of, lemma_split_on_nonempty, push_all,
    rfind_char, split_on, string_of,
};

verus! {

/// `p` with a `/` appended unless it already ends with one.
pub open spec fn with_trailing_slash(p: Seq<char>) -> Seq<char> {
    if p.len() > 0 && p.last() == '/' {
        p
    } else {
        p.push('/')
    }
}

/// Returns `path` ending in exactly the `/` it had, or with one appended.
pub fn add_trailing_slash(path: &str) -> (res: String)
    ensures
        res@ == with_trailing_slash(path@),
{
    let cs = chars_of(path);
    let mut res = string_of(&cs);
    if cs.len() == 0 || cs[cs.len() - 1] != '/' {
        res.push('/');
    }
    res
}

/// Adding a trailing slash twice is adding it once.
pub proof fn lemma_trailing_slash_idempotent(p: Seq<char>)
    ensures
        with_trailing_slash(with_trailing_slash(p)) == with_trailing_slash(p),
        with_trailing_slash(p).last() == '/',
        p.is_prefix_of(with_trailing_slash(p)),
{
    assert(p.is_prefix_of(with_trailing_slash(p))) by {
        if !(p.len() > 0 && p.last() == '/') {
            assert(p.push('/').subrange(0, p.len() as int) =~= p);
        } else {
            assert(p.subrange(0, p.len() as int) =~= p);
        }
    }
}

/// `filename` cut before its last `.`; unchanged when it has none.
pub open spec fn without_extension(filename: Seq<char>) -> Seq<char> {
    match last_index_of(filename, '.') {
        Some(i) => filename.subrange(0, i),
        None => filename,
    }
}

/// Returns the part of `filename` before its last `.`, or all of it when
/// it holds no `.`.
pub fn remove_extension(filename: &str) -> (res: &str)
    ensures
        res@ == without_extension(filename@),
{
    let cs = chars_of(filename);
    match rfind_char(&cs, '.') {
        Some(index) => {
            proof {
                lemma_last_index_of(filename@, '.');
            }
            filename.substring_char(0, index)
        },
        None => filename,
    }
}

/// Removing the extension leaves a prefix that, followed by `.` and a
/// `.`-free extension, gives the name back.
pub proof fn lemma_remove_extension_splits(filename: Seq<char>)
    ensures
        without_extension(filename).is_prefix_of(filename),
        last_index_of(filename, '.') is None ==> without_extension(filename) == filename,
        last_index_of(filename, '.') is Some ==> {
            let stem = without_extension(filename);
            let ext = filename.subrange(stem.len() as int + 1, filename.len() as int);
            &&& filename == stem + seq!['.'] + ext
            &&& !ext.contains('.')
        },
{
    lemma_last_index_of(filename, '.');
    match last_index_of(filename, '.') {
        Some(i) => {
            let stem = filename.subrange(0, i);
            let ext = filename.subrange(i + 1, filename.len() as int);
            assert(stem.is_prefix_of(filename)) by {
                assert(filename.subrange(0, stem.len() as int) =~= stem);
            }
            assert(filename =~= stem + seq!['.'] + ext);
            assert forall|j: int| 0 <= j < ext.len() implies ext[j] != '.' by {
                assert(ext[j] == filename[i + 1 + j]);
            }
        },
        None => {
            assert(filename.subrange(0, filename.len() as int) =~= filename);
        },
    }
}

/// The part of `path` after its last `/`, as the second half of
/// `str::rsplit_once('/')`; `None` when `path` holds no `/`.
pub open spec fn after_last_slash(path: Seq<char>) -> Option<Seq<char>> {
    match last_index_of(path, '/') {
        Some(i) => Some(path.subrange(i + 1, path.len() as int)),
        None => None,
    }
}

/// What follows the last `/`: it exists exactly when the path holds a `/`,
/// whatever the component starts with; it holds no `/`, and the path ends
/// with `/` followed by it.
pub proof fn lemma_after_last_slash(path: Seq<char>)
    ensures
        after_last_slash(path) is Some <==> path.contains('/'),
        after_last_slash(path) matches Some(c) ==> {
            &&& !c.contains('/')
            &&& path.len() >= c.len() + 1
            &&& path[path.len() - c.len() - 1] == '/'
            &&& path.subrange(path.len() - c.len(), path.len() as int) == c
        },
{
    lemma_last_index_of(path, '/');
    match last_index_of(path, '/') {
        Some(i) => {
            let c = path.subrange(i + 1, path.len() as int);
            assert(path.contains('/')) by {
                assert(path[i] == '/');
            }
            assert forall|j: int| 0 <= j < c.len() implies c[j] != '/' by {
                assert(c[j] == path[i + 1 + j]);
            }
        },
        None => {},
    }
}

/// The last component of `path`: what follows its last `/`.
pub fn last_path_component(path: &str) -> (res: Option<String>)
    ensures
        match res {
            Some(s) => after_last_slash(path@) == Some(s@),
            None => after_last_slash(path@) is None,
        },
        res is Some <==> path@.contains('/'),
        res matches Some(c) ==> {
            &&& !c@.contains('/')
            &&& path@.len() >= c@.len() + 1
            &&& path@[path@.len() - c@.len() - 1] == '/'
            &&& path@.subrange(path@.len() - c@.len(), path@.len() as int) == c@
        },
{
    proof {
        lemma_after_last_slash(path@);
    }
    let cs = chars_of(path);
    match rfind_char(&cs, '/') {
        Some(i) => {
            proof {
                lemma_last_index_of(path@, '/');
            }
            assert(i < cs.len());
            let mut tail: Vec<char> = Vec::new();
            let mut j = i + 1;
            while j < cs.len()
                invariant
                    i < cs.len(),
                    i + 1 <= j <= cs.len(),
                    tail@ == cs@.subrange(i + 1, j as int),
                decreases cs.len() - j,
            {
                tail.push(cs[j]);
                j = j + 1;
                assert(tail@ =~= cs@.subrange(i + 1, j as int));
            }
            Some(string_of(&tail))
        },
        None => None,
    }
}

/// The predicate that keeps the non-empty pieces of a split path.
pub open spec fn named_piece() -> spec_fn(Seq<char>) -> bool {
    |p: Seq<char>| p.len() > 0
}

/// `path` with its empty components dropped: `/` followed by its non-empty
/// `/`-separated pieces joined with `/`. A path with no non-empty piece
/// becomes `/`.
pub open spec fn normalized_path(path: Seq<char>) -> Seq<char> {
    seq!['/'] + join_with(split_on(path, '/').filter(named_piece()), seq!['/'])
}

/// The pieces, each preceded by a `/`.
pub open spec fn slash_prefixed(parts: Seq<Seq<char>>) -> Seq<char>
    decreases parts.len(),
{
    if parts.len() == 0 {
        Seq::empty()
    } else {
        slash_prefixed(parts.drop_last()) + seq!['/'] + parts.last()
    }
}

/// For at least one piece, prefixing each piece with `/` is `/` followed
/// by the pieces joined with `/`.
pub proof fn lemma_slash_prefixed_join(parts: Seq<Seq<char>>)
    requires
        parts.len() > 0,
    ensures
        slash_prefixed(parts) == seq!['/'] + join_with(parts, seq!['/']),
    decreases parts.len(),
{
    if parts.len() == 1 {
        assert(parts.drop_last() =~= Seq::<Seq<char>>::empty());
        assert(slash_prefixed(parts.drop_last()) == Seq::<char>::empty());
        assert(slash_prefixed(parts) =~= seq!['/'] + parts[0]);
    } else {
        lemma_slash_prefixed_join(parts.drop_last());
        assert(slash_prefixed(parts) =~= seq!['/'] + join_with(parts, seq!['/']));
    }
}

/// Prefixing pieces with `/` gives an empty result only for no pieces.
pub proof fn lemma_slash_prefixed_len(parts: Seq<Seq<char>>)
    ensures
        slash_prefixed(parts).len() >= parts.len(),
    decreases parts.len(),
{
    if parts.len() > 0 {
        lemma_slash_prefixed_len(parts.drop_last());
    }
}

/// `path` with its empty components dropped, as the archive name is built:
/// split on `/`, keep the non-empty pieces, join them with `/` and put a
/// `/` in front.
pub fn normalize_path(path: &Vec<char>) -> (res: Vec<char>)
    ensures
        res@ == normalized_path(path@),
{
    let mut out: Vec<char> = Vec::new();
    let mut cur: Vec<char> = Vec::new();
    let mut i: usize = 0;
    proof {
        assert(path@.take(0) =~= Seq::<char>::empty());
        assert(split_on(Seq::<char>::empty(), '/').drop_last() =~= Seq::<Seq<char>>::empty());
        reveal(Seq::filter);
    }
    while i < path.len()
        invariant
            i <= path.len(),
            split_on(path@.take(i as int), '/').last() == cur@,
            out@ == slash_prefixed(
                split_on(path@.take(i as int), '/').drop_last().filter(named_piece()),
            ),
        decreases path.len() - i,
    {
        let c = path[i];
        let ghost pre = path@.take(i as int);
        let ghost parts = split_on(pre, '/');
        proof {
            assert(path@.take(i + 1).drop_last() =~= pre);
            assert(path@.take(i + 1).last() == c);
            lemma_split_on_nonempty(pre, '/');
            assert(parts =~= parts.drop_last().push(cur@));
            parts.drop_last().lemma_filter_push(cur@, named_piece());
        }
        if c == '/' {
            let ghost kept = parts.drop_last().filter(named_piece());
            if cur.len() > 0 {
                out.push('/');
                push_all(&mut out, &cur);
                proof {
                    assert(parts.filter(named_piece()) == kept.push(cur@));
                    assert(kept.push(cur@).drop_last() =~= kept);
                    assert(out@ =~= slash_prefixed(kept.push(cur@)));
                }
            } else {
                proof {
                    assert(parts.filter(named_piece()) == kept);
                }
            }
            cur = Vec::new();
            proof {
                assert(split_on(path@.take(i + 1), '/') == parts.push(Seq::<char>::empty()));
                assert(parts.push(Seq::<char>::empty()).drop_last() =~= parts);
            }
        } else {
            cur.push(c);
            proof {
                let next = parts.update(parts.len() - 1, parts.last().push(c));
                assert(split_on(path@.take(i + 1), '/') == next);
                assert(next.drop_last() =~= parts.drop_last());
            }
        }
        i = i + 1;
    }
    proof {
        let parts = split_on(path@, '/');
        assert(path@.take(path.len() as int) =~= path@);
        lemma_split_on_nonempty(path@, '/');
        assert(parts =~= parts.drop_last().push(cur@));
        parts.drop_last().lemma_filter_push(cur@, named_piece());
    }
    let ghost kept0 = split_on(path@, '/').drop_last().filter(named_piece());
    if cur.len() > 0 {
        out.push('/');
        push_all(&mut out, &cur);
        proof {
            assert(split_on(path@, '/').filter(named_piece()) == kept0.push(cur@));
            assert(kept0.push(cur@).drop_last() =~= kept0);
            assert(out@ =~= slash_prefixed(kept0.push(cur@)));
        }
    } else {
        proof {
            assert(split_on(path@, '/').filter(named_piece()) == kept0);
        }
    }
    proof {
        let kept = split_on(path@, '/').filter(named_piece());
        lemma_slash_prefixed_len(kept);
        if kept.len() > 0 {
            lemma_slash_prefixed_join(kept);
        } else {
            assert(kept =~= Seq::<Seq<char>>::empty());
        }
    }
    if out.len() == 0 {
        out.push('/');
        proof {
            let kept = split_on(path@, '/').filter(named_piece());
            assert(kept.len() == 0);
            assert(out@ =~= normalized_path(path@));
        }
    }
    out
}

/// The pieces of a split never hold the separator.
pub proof fn lemma_split_pieces_free(s: Seq<char>)
    ensures
        forall|i: int| 0 <= i < split_on(s, '/').len() ==> !(#[trigger] split_on(s, '/')[i]).contains('/'),
    decreases s.len(),
{
    if s.len() > 0 {
        lemma_split_pieces_free(s.drop_last());
        lemma_split_on_nonempty(s.drop_last(), '/');
        let r = split_on(s.drop_last(), '/');
        if s.last() != '/' {
            let last = r.last().push(s.last());
            assert(!r.last().contains('/'));
            assert forall|j: int| 0 <= j < last.len() implies last[j] != '/' by {
                if j < r.last().len() {
                    assert(last[j] == r.last()[j]);
                }
            }
        } else {
            assert(!Seq::<char>::empty().contains('/'));
        }
    }
}

/// Appending a `/`-free text to a path extends its last piece.
proof fn lemma_split_append_free(y: Seq<char>, p: Seq<char>)
    requires
        !p.contains('/'),
    ensures
        split_on(y + p, '/') == split_on(y, '/').update(
            split_on(y, '/').len() - 1,
            split_on(y, '/').last() + p,
        ),
    decreases p.len(),
{
    lemma_split_on_nonempty(y, '/');
    let sy = split_on(y, '/');
    if p.len() == 0 {
        assert(y + p =~= y);
        assert(sy.update(sy.len() - 1, sy.last() + p) =~= sy);
    } else {
        let q = p.drop_last();
        let c = p.last();
        assert(!q.contains('/')) by {
            assert forall|j: int| 0 <= j < q.len() implies q[j] != '/' by {
                assert(q[j] == p[j]);
            }
        }
        assert(c != '/') by {
            assert(p[p.len() - 1] == c);
        }
        lemma_split_append_free(y, q);
        assert((y + p).drop_last() =~= y + q);
        assert((y + p).last() == c);
        let r = split_on(y + q, '/');
        assert(r == sy.update(sy.len() - 1, sy.last() + q));
        assert(split_on(y + p, '/') == r.update(r.len() - 1, r.last().push(c)));
        assert((sy.last() + q).push(c) =~= sy.last() + p);
        assert(r.update(r.len() - 1, r.last().push(c)) =~= sy.update(sy.len() - 1, sy.last() + p));
    }
}

/// Non-empty, `/`-free pieces, each preceded by `/`, split back into an
/// empty first piece followed by the pieces.
proof fn lemma_split_slash_prefixed(ps: Seq<Seq<char>>)
    requires
        forall|i: int| 0 <= i < ps.len() ==> (#[trigger] ps[i]).len() > 0 && !ps[i].contains('/'),
    ensures
        split_on(slash_prefixed(ps), '/') == seq![Seq::<char>::empty()] + ps,
    decreases ps.len(),
{
    if ps.len() == 0 {
        assert(seq![Seq::<char>::empty()] + ps =~= seq![Seq::<char>::empty()]);
    } else {
        let dl = ps.drop_last();
        let x = slash_prefixed(dl);
        lemma_split_slash_prefixed(dl);
        let y = x.push('/');
        assert(y.drop_last() =~= x);
        assert(split_on(y, '/') == split_on(x, '/').push(Seq::<char>::empty()));
        assert(!ps.last().contains('/')) by {
            assert(ps.last() == ps[ps.len() - 1]);
        }
        lemma_split_append_free(y, ps.last());
        assert(slash_prefixed(ps) =~= y + ps.last());
        let sy = split_on(y, '/');
        assert(sy.update(sy.len() - 1, sy.last() + ps.last()) =~= seq![Seq::<char>::empty()] + ps);
    }
}

/// A lone empty piece is dropped.
proof fn lemma_single_empty_filtered()
    ensures
        seq![Seq::<char>::empty()].filter(named_piece()) == Seq::<Seq<char>>::empty(),
{
    let none = Seq::<Seq<char>>::empty();
    assert(none.filter(named_piece()) =~= none) by {
        reveal(Seq::filter);
    }
    none.lemma_filter_push(Seq::<char>::empty(), named_piece());
    assert(none.push(Seq::<char>::empty()) =~= seq![Seq::<char>::empty()]);
}

/// Keeping the non-empty pieces of pieces that are all non-empty keeps
/// them all.
proof fn lemma_filter_keeps_named(ps: Seq<Seq<char>>)
    requires
        forall|i: int| 0 <= i < ps.len() ==> (#[trigger] ps[i]).len() > 0,
    ensures
        ps.filter(named_piece()) == ps,
    decreases ps.len(),
{
    if ps.len() == 0 {
        assert(ps.filter(named_piece()) =~= ps) by {
            reveal(Seq::filter);
        }
    } else {
        let dl = ps.drop_last();
        assert forall|i: int| 0 <= i < dl.len() implies (#[trigger] dl[i]).len() > 0 by {
            assert(dl[i] == ps[i]);
        }
        lemma_filter_keeps_named(dl);
        let last = ps[ps.len() - 1];
        assert(dl.push(last) =~= ps);
        dl.lemma_filter_push(last, named_piece());
    }
}

/// Dropping the empty pieces of an empty piece followed by non-empty ones
/// leaves the non-empty ones.
proof fn lemma_filter_leading_empty(ps: Seq<Seq<char>>)
    requires
        forall|i: int| 0 <= i < ps.len() ==> (#[trigger] ps[i]).len() > 0,
    ensures
        (seq![Seq::<char>::empty()] + ps).filter(named_piece()) == ps,
{
    lemma_single_empty_filtered();
    lemma_filter_keeps_named(ps);
    Seq::filter_distributes_over_add(seq![Seq::<char>::empty()], ps, named_piece());
    assert(Seq::<Seq<char>>::empty() + ps =~= ps);
}

/// A normalized path is normalized already: normalizing twice is
/// normalizing once. Every normalized path starts with `/`.
pub proof fn lemma_normalize_idempotent(s: Seq<char>)
    ensures
        normalized_path(normalized_path(s)) == normalized_path(s),
        normalized_path(s)[0] == '/',
{
    let kept = split_on(s, '/').filter(named_piece());
    lemma_split_pieces_free(s);
    assert forall|i: int| 0 <= i < kept.len() implies (#[trigger] kept[i]).len() > 0 && !kept[i].contains('/') by {
        split_on(s, '/').lemma_filter_pred(named_piece(), i);
        split_on(s, '/').lemma_filter_contains_rev(named_piece(), kept[i]);
        assert(kept.contains(kept[i]));
        let j = choose|j: int| 0 <= j < split_on(s, '/').len() && split_on(s, '/')[j] == kept[i];
    }
    if kept.len() == 0 {
        let n = normalized_path(s);
        assert(n =~= seq!['/']);
        assert(n.drop_last() =~= Seq::<char>::empty());
        assert(split_on(n, '/') == split_on(Seq::<char>::empty(), '/').push(Seq::<char>::empty()));
        lemma_single_empty_filtered();
        let one = seq![Seq::<char>::empty()];
        assert(split_on(n, '/') =~= one.push(Seq::<char>::empty()));
        one.lemma_filter_push(Seq::<char>::empty(), named_piece());
        assert(split_on(n, '/').filter(named_piece()) =~= Seq::<Seq<char>>::empty());
        assert(normalized_path(n) =~= seq!['/']);
    } else {
        lemma_slash_prefixed_join(kept);
        let n = normalized_path(s);
        assert(n == slash_prefixed(kept));
        lemma_split_slash_prefixed(kept);
        lemma_filter_leading_empty(kept);
        assert(split_on(n, '/').filter(named_piece()) == kept);
    }
}

/// The name of the archive for `stem`: `<destination>/<date>/<stem>.tar.gz`
/// with its empty components dropped.
pub open spec fn archive_name_of(destination: Seq<char>, date: Seq<char>, stem: Seq<char>) -> Seq<
    char,
> {
    normalized_path(
        destination + seq!['/'] + date + seq!['/'] + stem + seq!['.', 't', 'a', 'r', '.', 'g', 'z'],
    )
}

/// Splitting at a `/` between two texts splits each of them.
pub proof fn lemma_split_on_concat(a: Seq<char>, b: Seq<char>)
    ensures
        split_on(a + seq!['/'] + b, '/') == split_on(a, '/') + split_on(b, '/'),
    decreases b.len(),
{
    let j = a + seq!['/'];
    assert(j.drop_last() =~= a);
    if b.len() == 0 {
        assert(j + b =~= j);
        assert(split_on(j, '/') == split_on(a, '/').push(Seq::<char>::empty()));
        assert(split_on(a, '/').push(Seq::<char>::empty()) =~= split_on(a, '/') + split_on(b, '/'));
    } else {
        let bd = b.drop_last();
        let c = b.last();
        lemma_split_on_concat(a, bd);
        lemma_split_on_nonempty(bd, '/');
        let whole = a + seq!['/'] + b;
        assert(whole.drop_last() =~= a + seq!['/'] + bd);
        assert(whole.last() == c);
        let r = split_on(a + seq!['/'] + bd, '/');
        let sa = split_on(a, '/');
        let sb = split_on(bd, '/');
        assert(r == sa + sb);
        if c == '/' {
            assert(split_on(whole, '/') == r.push(Seq::<char>::empty()));
            assert(split_on(b, '/') == sb.push(Seq::<char>::empty()));
            assert((sa + sb).push(Seq::<char>::empty()) =~= sa + sb.push(Seq::<char>::empty()));
        } else {
            assert(split_on(whole, '/') == r.update(r.len() - 1, r.last().push(c)));
            assert(split_on(b, '/') == sb.update(sb.len() - 1, sb.last().push(c)));
            assert(r.last() == sb.last());
            assert(r.update(r.len() - 1, r.last().push(c)) =~= sa + sb.update(
                sb.len() - 1,
                sb.last().push(c),
            ));
        }
    }
}

/// The archive name depends on the destination only through its non-empty
/// `/`-separated segments: destinations such as `backups`, `/backups/` and
/// `//backups` give the same names, and every name is absolute.
pub proof fn lemma_archive_name_by_segments(
    dest1: Seq<char>,
    dest2: Seq<char>,
    date: Seq<char>,
    stem: Seq<char>,
)
    requires
        split_on(dest1, '/').filter(named_piece()) == split_on(dest2, '/').filter(named_piece()),
    ensures
        archive_name_of(dest1, date, stem) == archive_name_of(dest2, date, stem),
        archive_name_of(dest1, date, stem)[0] == '/',
{
    let rest = date + seq!['/'] + stem + seq!['.', 't', 'a', 'r', '.', 'g', 'z'];
    assert(dest1 + seq!['/'] + date + seq!['/'] + stem + seq!['.', 't', 'a', 'r', '.', 'g', 'z']
        =~= dest1 + seq!['/'] + rest);
    assert(dest2 + seq!['/'] + date + seq!['/'] + stem + seq!['.', 't', 'a', 'r', '.', 'g', 'z']
        =~= dest2 + seq!['/'] + rest);
    lemma_split_on_concat(dest1, rest);
    lemma_split_on_concat(dest2, rest);
    Seq::filter_distributes_over_add(split_on(dest1, '/'), split_on(rest, '/'), named_piece());
    Seq::filter_distributes_over_add(split_on(dest2, '/'), split_on(rest, '/'), named_piece());
    lemma_normalize_idempotent(dest1 + seq!['/'] + rest);
}

/// A text free of `/` is a single piece.
proof fn lemma_split_free(t: Seq<char>)
    requires
        !t.contains('/'),
    ensures
        split_on(t, '/') == seq![t],
{
    lemma_split_append_free(Seq::<char>::empty(), t);
    assert(Seq::<char>::empty() + t =~= t);
    assert(seq![Seq::<char>::empty()].update(0, Seq::<char>::empty() + t) =~= seq![t]);
}

/// The layout of an archive name: the non-empty segments of the
/// destination, each after a `/`, then `/`, the date, `/`, the entry name
/// kept whole (dots included) and `.tar.gz`, for a non-empty date and an
/// entry name free of `/`.
pub proof fn lemma_archive_name_layout(dest: Seq<char>, date: Seq<char>, stem: Seq<char>)
    requires
        date.len() > 0,
        !date.contains('/'),
        !stem.contains('/'),
    ensures
        archive_name_of(dest, date, stem) == slash_prefixed(split_on(dest, '/').filter(named_piece()))
            + seq!['/'] + date + seq!['/'] + stem + seq!['.', 't', 'a', 'r', '.', 'g', 'z'],
{
    let ext = seq!['.', 't', 'a', 'r', '.', 'g', 'z'];
    let file = stem + ext;
    assert(!file.contains('/')) by {
        assert forall|j: int| 0 <= j < file.len() implies file[j] != '/' by {
            if j < stem.len() {
                assert(file[j] == stem[j]);
            } else {
                assert(file[j] == ext[j - stem.len()]);
            }
        }
    }
    let rest = date + seq!['/'] + file;
    assert(dest + seq!['/'] + date + seq!['/'] + stem + ext =~= dest + seq!['/'] + rest);
    lemma_split_on_concat(dest, rest);
    lemma_split_on_concat(date, file);
    lemma_split_free(date);
    lemma_split_free(file);
    let pair = seq![date, file];
    assert(seq![date] + seq![file] =~= pair);
    assert forall|i: int| 0 <= i < pair.len() implies (#[trigger] pair[i]).len() > 0 by {
        if i == 0 {
            assert(pair[0] == date);
        } else {
            assert(pair[1] == file);
            assert(file.len() >= 7);
        }
    }
    lemma_filter_keeps_named(pair);
    let f = split_on(dest, '/').filter(named_piece());
    Seq::filter_distributes_over_add(split_on(dest, '/'), pair, named_piece());
    let kept = f + pair;
    assert(split_on(dest + seq!['/'] + rest, '/').filter(named_piece()) == kept);
    lemma_slash_prefixed_join(kept);
    assert(kept.drop_last() =~= f.push(date));
    assert(kept.last() == file);
    assert(f.push(date).drop_last() =~= f);
    assert(slash_prefixed(f.push(date)) == slash_prefixed(f) + seq!['/'] + date);
    assert(slash_prefixed(kept) == slash_prefixed(f.push(date)) + seq!['/'] + file);
    assert(slash_prefixed(kept) =~= slash_prefixed(f) + seq!['/'] + date + seq!['/'] + stem + ext);
}

/// Returns the path of the archive that holds `stem`, made under
/// `tar_destination` in the folder of `date`.
pub fn archive_name(tar_destination: &str, date: &str, stem: &str) -> (res: String)
    ensures
        res@ == archive_name_of(tar_destination@, date@, stem@),
        res@.len() > 0 && res@[0] == '/',
        date@.len() > 0 && !date@.contains('/') && !stem@.contains('/') ==> {
            let tail = seq!['/'] + date@ + seq!['/'] + stem@ + seq!['.', 't', 'a', 'r', '.', 'g', 'z'];
            &&& res@.len() >= tail.len()
            &&& res@.subrange(res@.len() - tail.len(), res@.len() as int) == tail
        },
{
    proof {
        lemma_normalize_idempotent(
            tar_destination@ + seq!['/'] + date@ + seq!['/'] + stem@ + seq!['.', 't', 'a', 'r', '.', 'g', 'z'],
        );
        if date@.len() > 0 && !date@.contains('/') && !stem@.contains('/') {
            lemma_archive_name_layout(tar_destination@, date@, stem@);
            let tail = seq!['/'] + date@ + seq!['/'] + stem@ + seq!['.', 't', 'a', 'r', '.', 'g', 'z'];
            let head = slash_prefixed(split_on(tar_destination@, '/').filter(named_piece()));
            let name = archive_name_of(tar_destination@, date@, stem@);
            assert(name =~= head + tail);
            assert(name.subrange(head.len() as int, name.len() as int) =~= tail);
        }
    }
    let mut full = chars_of(tar_destination);
    full.push('/');
    push_all(&mut full, &chars_of(date));
    full.push('/');
    push_all(&mut full, &chars_of(stem));
    let suffix = vec!['.', 't', 'a', 'r', '.', 'g', 'z'];
    push_all(&mut full, &suffix);
    proof {
        assert(full@ =~= tar_destination@ + seq!['/'] + date@ + seq!['/'] + stem@ + seq![
            '.',
            't',
            'a',
            'r',
            '.',
            'g',
            'z',
        ]);
    }
    string_of(&normalize_path(&full))
}

/// `path` without one leading `/`: the name under which a file is stored
/// inside an archive.
pub open spec fn without_root(path: Seq<char>) -> Seq<char> {
    if path.len() > 0 && path[0] == '/' {
        path.subrange(1, path.len() as int)
    } else {
        path
    }
}

/// The member name is the whole path after its one leading `/`, with no
/// bound on its length: putting the `/` back gives the path.
pub proof fn lemma_without_root(path: Seq<char>)
    ensures
        path.len() > 0 && path[0] == '/' ==> seq!['/'] + without_root(path) == path,
        path.len() > 0 && path[0] == '/' ==> without_root(path).len() == path.len() - 1,
        !(path.len() > 0 && path[0] == '/') ==> without_root(path) == path,
{
    if path.len() > 0 && path[0] == '/' {
        assert(seq!['/'] + without_root(path) =~= path);
    }
}

/// Returns the name under which the file at `path` is stored in an
/// archive: the path with one leading `/` removed.
pub fn archive_member_name(path: &str) -> (res: String)
    ensures
        res@ == without_root(path@),
        path@.len() > 0 && path@[0] == '/' ==> seq!['/'] + res@ == path@,
        !(path@.len() > 0 && path@[0] == '/') ==> res@ == path@,
{
    let cs = chars_of(path);
    if cs.len() > 0 && cs[0] == '/' {
        let mut rest: Vec<char> = Vec::new();
        let mut j: usize = 1;
        while j < cs.len()
            invariant
                1 <= j <= cs.len(),
                rest@ == cs@.subrange(1, j as int),
            decreases cs.len() - j,
        {
            rest.push(cs[j]);
            j = j + 1;
            assert(rest@ =~= cs@.subrange(1, j as int));
        }
        string_of(&rest)
    } else {
        string_of(&cs)
    }
}

/// Some entry of `excluded` occurs in `path`.
pub open spec fn is_excluded_by(path: Seq<char>, excluded: Seq<Seq<char>>) -> bool {
    exists|i: int| 0 <= i < excluded.len() && contains_seq(path, excluded[i])
}

/// Whether `path` holds any of the `excluded` strings.
pub fn is_excluded(path: &str, excluded: &Vec<String>) -> (res: bool)
    ensures
        res == is_excluded_by(path@, excluded.deep_view()),
{
    let cs = chars_of(path);
    let mut i: usize = 0;
    while i < excluded.len()
        invariant
            i <= excluded.len(),
            cs@ == path@,
            forall|j: int| 0 <= j < i ==> !contains_seq(path@, #[trigger] excluded.deep_view()[j]),
        decreases excluded.len() - i,
    {
        let pat = chars_of(excluded[i].as_str());
        if seq_contains(&cs, &pat) {
            assert(excluded.deep_view()[i as int] == excluded@[i as int]@);
            return true;
        }
        assert(excluded.deep_view()[i as int] == excluded@[i as int]@);
        i = i + 1;
    }
    false
}

/// Everything below an excluded folder is excluded: an entry of
/// `excluded` that occurs in `folder` occurs in every path that starts
/// with `folder`.
pub proof fn lemma_excluded_below(folder: Seq<char>, rest: Seq<char>, excluded: Seq<Seq<char>>)
    requires
        is_excluded_by(folder, excluded),
    ensures
        is_excluded_by(folder + rest, excluded),
{
    let i = choose|i: int| 0 <= i < excluded.len() && contains_seq(folder, excluded[i]);
    let e = excluded[i];
    let k = choose|k: int| crate::text::occurs_at(folder, e, k);
    let path = folder + rest;
    assert(path.subrange(k, k + e.len()) =~= folder.subrange(k, k + e.len()));
    assert(crate::text::occurs_at(path, e, k));
    assert(contains_seq(path, excluded[i]));
}

/// What to do with one entry of the folder being backed up.
#[derive(Debug, PartialEq, Eq)]
pub enum TopLevelPlan {
    /// Archive the whole folder into `tar_name`.
    ArchiveDirectory { tar_name: String },
    /// Archive the single file into `tar_name`, stored as `member_name`.
    ArchiveFile { tar_name: String, member_name: String },
    /// The file is excluded; `tar_name` is the archive it would have had.
    ExcludedFile { tar_name: String },
    /// The path has no `/`, so no archive name can be made for it.
    Skip,
}

/// Decides what to do with the entry at `path` of the folder being backed
/// up: a folder gets an archive named after its last component; any other
/// entry gets one named after its last component without the extension,
/// unless one of `excluded` occurs in its path.
pub fn plan_top_level_entry(
    path: &str,
    is_dir: bool,
    tar_destination: &str,
    date: &str,
    excluded: &Vec<String>,
) -> (plan: TopLevelPlan)
    ensures
        match after_last_slash(path@) {
            None => plan is Skip,
            Some(last) => if is_dir {
                plan matches TopLevelPlan::ArchiveDirectory { tar_name } && tar_name@
                    == archive_name_of(tar_destination@, date@, last)
            } else {
                let name = archive_name_of(tar_destination@, date@, without_extension(last));
                if is_excluded_by(path@, excluded.deep_view()) {
                    plan matches TopLevelPlan::ExcludedFile { tar_name } && tar_name@ == name
                } else {
                    plan matches TopLevelPlan::ArchiveFile { tar_name, member_name } && tar_name@
                        == name && member_name@ == without_root(path@)
                }
            },
        },
        plan is Skip <==> !path@.contains('/'),
        plan matches TopLevelPlan::ArchiveFile { member_name, .. } ==> if path@.len() > 0
            && path@[0] == '/' {
            seq!['/'] + member_name@ == path@
        } else {
            member_name@ == path@
        },
        plan matches TopLevelPlan::ArchiveDirectory { tar_name } ==> is_dir && (date@.len() > 0
            && !date@.contains('/') ==> exists|c: Seq<char>|
            {
                let tail = seq!['/'] + date@ + seq!['/'] + c + seq!['.', 't', 'a', 'r', '.', 'g', 'z'];
                &&& !#[trigger] c.contains('/')
                &&& path@.len() >= c.len() + 1
                &&& path@.subrange(path@.len() - c.len() - 1, path@.len() as int) == seq!['/'] + c
                &&& tar_name@.len() >= tail.len()
                &&& tar_name@.subrange(tar_name@.len() - tail.len(), tar_name@.len() as int) == tail
            }),
{
    match last_path_component(path) {
        None => TopLevelPlan::Skip,
        Some(last) => {
            if is_dir {
                TopLevelPlan::ArchiveDirectory {
                    tar_name: archive_name(tar_destination, date, last.as_str()),
                }
            } else {
                let stem = remove_extension(last.as_str());
                let tar_name = archive_name(tar_destination, date, stem);
                if is_excluded(path, excluded) {
                    TopLevelPlan::ExcludedFile { tar_name }
                } else {
                    TopLevelPlan::ArchiveFile { tar_name, member_name: archive_member_name(path) }
                }
            }
        },
    }
}

/// What to do with one entry found while archiving a folder.
#[derive(Debug, PartialEq, Eq)]
pub enum NestedPlan {
    /// Archive the contents of this folder too.
    Descend,
    /// The entry is excluded.
    Excluded,
    /// Append the file to the archive as `member_name`.
    AppendFile { member_name: String },
    /// Neither a folder nor a regular file: leave it out.
    Ignore,
}

/// Decides what to do with the entry at `path` met inside a folder being
/// archived: folders are descended into and regular files appended, unless
/// one of `excluded` occurs in the path; anything else is left out.
pub fn plan_nested_entry(path: &str, is_dir: bool, is_file: bool, excluded: &Vec<String>) -> (plan:
    NestedPlan)
    ensures
        if is_dir || is_file {
            if is_excluded_by(path@, excluded.deep_view()) {
                plan is Excluded
            } else if is_dir {
                plan is Descend
            } else {
                plan matches NestedPlan::AppendFile { member_name } && member_name@ == without_root(
                    path@,
                )
            }
        } else {
            plan is Ignore
        },
        plan matches NestedPlan::AppendFile { member_name } ==> if path@.len() > 0 && path@[0]
            == '/' {
            seq!['/'] + member_name@ == path@
        } else {
            member_name@ == path@
        },
{
    if is_dir {
        if is_excluded(path, excluded) {
            NestedPlan::Excluded
        } else {
            NestedPlan::Descend
        }
    } else if is_file {
        let member_name = archive_member_name(path);
        if is_excluded(path, excluded) {
            NestedPlan::Excluded
        } else {
            NestedPlan::AppendFile { member_name }
        }
    } else {
        NestedPlan::Ignore
    }
}

/// `child` appended to `base` as `Path::join` does on Unix: an absolute
/// `child` replaces `base`; otherwise a `/` is put between them when `base`
/// is non-empty and does not end with one.
pub open spec fn joined_path(base: Seq<char>, child: Seq<char>) -> Seq<char> {
    if child.len() > 0 && child[0] == '/' {
        child
    } else if base.len() > 0 && base.last() != '/' {
        base + seq!['/'] + child
    } else {
        base + child
    }
}

/// Returns `child` joined onto `base` (see `joined_path`).
pub fn join_path(base: &str, child: &str) -> (res: String)
    ensures
        res@ == joined_path(base@, child@),
{
    let b = chars_of(base);
    let c = chars_of(child);
    if c.len() > 0 && c[0] == '/' {
        return string_of(&c);
    }
    let mut out = b;
    if out.len() > 0 && out[out.len() - 1] != '/' {
        out.push('/');
    }
    push_all(&mut out, &c);
    string_of(&out)
}

/// Returns the folder for the archives of `date` under `parent`: `parent`
/// joined with the date.
pub fn date_directory(parent: &str, date: &str) -> (dir: String)
    ensures
        dir@ == joined_path(parent@, date@),
{
    join_path(parent, date)
}

} // verus!
