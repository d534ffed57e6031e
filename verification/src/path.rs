//! Request paths and their confinement to the serve root.
//!
//! A path is read as a sequence of characters split on `/`. Only the normal
//! segments survive sanitizing: empty segments, `.` and `..` are dropped, so a
//! sanitized path names a descendant of the root and nothing else.

use vstd::prelude::*;

verus! {

/// Index of the first `/` in `p`, or `p.len()` when there is none.
pub open spec fn first_separator(p: Seq<char>) -> int
    decreases p.len(),
{
    if p.len() == 0 || p[0] == '/' {
        0
    } else {
        1 + first_separator(p.drop_first())
    }
}

/// The pieces of `p` between its `/` characters, empty pieces included.
pub open spec fn segments(p: Seq<char>) -> Seq<Seq<char>>
    decreases p.len(),
{
    let k = first_separator(p);
    if 0 <= k < p.len() {
        seq![p.take(k)] + segments(p.skip(k + 1))
    } else {
        seq![p]
    }
}

/// No character of `s` is a `/`.
pub open spec fn is_separator_free(s: Seq<char>) -> bool {
    forall|j: int| 0 <= j < s.len() ==> s[j] != '/'
}

/// A segment that names a child: not empty, not `.`, not `..`, and free of `/`.
pub open spec fn is_normal_segment(s: Seq<char>) -> bool {
    &&& s.len() > 0
    &&& s != seq!['.']
    &&& s != seq!['.', '.']
    &&& is_separator_free(s)
}

/// Every segment is normal.
pub open spec fn is_normal_path(segs: Seq<Seq<char>>) -> bool {
    forall|i: int| 0 <= i < segs.len() ==> is_normal_segment(#[trigger] segs[i])
}

/// The normal segments of `segs`, in order.
pub open spec fn keep_normal(segs: Seq<Seq<char>>) -> Seq<Seq<char>>
    decreases segs.len(),
{
    if segs.len() == 0 {
        Seq::empty()
    } else if is_normal_segment(segs[0]) {
        seq![segs[0]] + keep_normal(segs.drop_first())
    } else {
        keep_normal(segs.drop_first())
    }
}

/// The normal components of a raw path: what sanitizing keeps.
pub open spec fn normal_components(p: Seq<char>) -> Seq<Seq<char>> {
    keep_normal(segments(p))
}

/// The parts written one after another with a `/` between neighbours.
pub open spec fn join(parts: Seq<Seq<char>>) -> Seq<char>
    decreases parts.len(),
{
    if parts.len() == 0 {
        Seq::empty()
    } else if parts.len() == 1 {
        parts[0]
    } else {
        join(parts.drop_last()) + seq!['/'] + parts.last()
    }
}

/// The string form of a sanitized path: `.` for the root, `./a/b` below it.
pub open spec fn path_string(comps: Seq<Seq<char>>) -> Seq<char> {
    join(seq![seq!['.']] + comps)
}

/// The views of a vector of strings.
pub open spec fn names(v: Seq<String>) -> Seq<Seq<char>> {
    Seq::new(v.len(), |i: int| v[i]@)
}

/// The first separator is a `/`, unless it is the end of the path, and no
/// `/` stands before it.
pub proof fn lemma_first_separator(p: Seq<char>)
    ensures
        0 <= first_separator(p) <= p.len(),
        forall|j: int| 0 <= j < first_separator(p) ==> p[j] != '/',
        first_separator(p) < p.len() ==> p[first_separator(p)] == '/',
    decreases p.len(),
{
    if p.len() == 0 || p[0] == '/' {
    } else {
        let q = p.drop_first();
        lemma_first_separator(q);
        assert forall|j: int| 0 <= j < first_separator(p) implies p[j] != '/' by {
            if j > 0 {
                assert(p[j] == q[j - 1]);
            }
        }
        if first_separator(p) < p.len() {
            assert(p[first_separator(p)] == q[first_separator(q)]);
        }
    }
}

/// A `/` at `k` with none before it ends the first segment there.
pub proof fn lemma_segments_at_separator(q: Seq<char>, k: int)
    requires
        0 <= k < q.len(),
        q[k] == '/',
        forall|j: int| 0 <= j < k ==> q[j] != '/',
    ensures
        segments(q) == seq![q.take(k)] + segments(q.skip(k + 1)),
{
    lemma_first_separator(q);
    assert(first_separator(q) == k);
}

/// A path without `/` is its own single segment.
pub proof fn lemma_segments_without_separator(q: Seq<char>)
    requires
        forall|j: int| 0 <= j < q.len() ==> q[j] != '/',
    ensures
        segments(q) == seq![q],
{
    lemma_first_separator(q);
}

/// Keeping goes segment by segment: the first is kept if it is normal.
pub proof fn lemma_keep_normal_cons(h: Seq<char>, rest: Seq<Seq<char>>)
    ensures
        keep_normal(seq![h] + rest) == if is_normal_segment(h) {
            seq![h] + keep_normal(rest)
        } else {
            keep_normal(rest)
        },
{
    let all = seq![h] + rest;
    assert(all[0] == h);
    assert(all.drop_first() =~= rest);
}

/// Splitting undoes a `/` put between two paths.
pub proof fn lemma_segments_concat(a: Seq<char>, b: Seq<char>)
    ensures
        segments(a + seq!['/'] + b) == segments(a) + segments(b),
    decreases a.len(),
{
    let w = a + seq!['/'] + b;
    lemma_first_separator(a);
    let k = first_separator(a);
    assert forall|j: int| 0 <= j < k implies w[j] != '/' by {
        assert(w[j] == a[j]);
    }
    assert(w.take(k) =~= a.take(k));
    if k == a.len() {
        assert(w[k] == '/');
        lemma_segments_at_separator(w, k);
        assert(a.take(k) =~= a);
        assert(w.skip(k + 1) =~= b);
        lemma_segments_without_separator(a);
    } else {
        assert(w[k] == a[k]);
        lemma_segments_at_separator(a, k);
        lemma_segments_at_separator(w, k);
        let rest = a.skip(k + 1);
        assert(w.skip(k + 1) =~= rest + seq!['/'] + b);
        lemma_segments_concat(rest, b);
        assert(seq![a.take(k)] + (segments(rest) + segments(b)) =~= (seq![a.take(k)] + segments(
            rest,
        )) + segments(b));
    }
}

/// Splitting undoes joining, as long as no part holds a `/`.
pub proof fn lemma_segments_of_join(parts: Seq<Seq<char>>)
    requires
        parts.len() > 0,
        forall|i: int| 0 <= i < parts.len() ==> is_separator_free(#[trigger] parts[i]),
    ensures
        segments(join(parts)) == parts,
    decreases parts.len(),
{
    if parts.len() == 1 {
        lemma_segments_without_separator(parts[0]);
        assert(seq![parts[0]] =~= parts);
    } else {
        let init = parts.drop_last();
        assert forall|i: int| 0 <= i < init.len() implies is_separator_free(#[trigger] init[i]) by {
            assert(init[i] == parts[i]);
        }
        assert(is_separator_free(parts[parts.len() - 1]));
        lemma_segments_of_join(init);
        lemma_segments_concat(join(init), parts.last());
        lemma_segments_without_separator(parts.last());
        assert(init + seq![parts.last()] =~= parts);
    }
}

/// Normal segments are all kept.
pub proof fn lemma_keep_normal_of_normal(segs: Seq<Seq<char>>)
    requires
        is_normal_path(segs),
    ensures
        keep_normal(segs) == segs,
    decreases segs.len(),
{
    if segs.len() > 0 {
        let rest = segs.drop_first();
        assert forall|i: int| 0 <= i < rest.len() implies is_normal_segment(#[trigger] rest[i]) by {
            assert(rest[i] == segs[i + 1]);
        }
        lemma_keep_normal_of_normal(rest);
        assert(is_normal_segment(segs[0]));
        assert(seq![segs[0]] + rest =~= segs);
    }
}

/// Whatever is kept is normal.
pub proof fn lemma_keep_normal_is_normal(segs: Seq<Seq<char>>)
    ensures
        is_normal_path(keep_normal(segs)),
    decreases segs.len(),
{
    if segs.len() > 0 {
        let rest = segs.drop_first();
        lemma_keep_normal_is_normal(rest);
        let kept = keep_normal(segs);
        assert forall|i: int| 0 <= i < kept.len() implies is_normal_segment(#[trigger] kept[i]) by {
            if is_normal_segment(segs[0]) && i > 0 {
                assert(kept[i] == keep_normal(rest)[i - 1]);
            }
        }
    }
}

/// The string form of a normal path splits into `.` and the segments of the path.
pub proof fn lemma_segments_of_path_string(comps: Seq<Seq<char>>)
    requires
        is_normal_path(comps),
    ensures
        segments(path_string(comps)) == seq![seq!['.']] + comps,
{
    let parts = seq![seq!['.']] + comps;
    assert forall|i: int| 0 <= i < parts.len() implies is_separator_free(#[trigger] parts[i]) by {
        if i > 0 {
            assert(parts[i] == comps[i - 1]);
            assert(is_normal_segment(comps[i - 1]));
        } else {
            assert(parts[i] == seq!['.']);
            assert(seq!['.'].len() == 1 && seq!['.'][0] == '.');
        }
    }
    lemma_segments_of_join(parts);
}

/// Sanitizing is idempotent: a sanitized path, written out and sanitized
/// again, is the same path.
pub proof fn lemma_sanitize_idempotent(p: Seq<char>)
    ensures
        normal_components(path_string(normal_components(p))) == normal_components(p),
{
    lemma_keep_normal_is_normal(segments(p));
    lemma_sanitized_string_round_trip(normal_components(p));
}

/// Sanitizing the string form of a normal path gives the path back.
pub proof fn lemma_sanitized_string_round_trip(comps: Seq<Seq<char>>)
    requires
        is_normal_path(comps),
    ensures
        normal_components(path_string(comps)) == comps,
{
    lemma_segments_of_path_string(comps);
    lemma_keep_normal_cons(seq!['.'], comps);
    lemma_keep_normal_of_normal(comps);
}

/// Where a walk over `segs` ends that starts `depth` levels below the root:
/// `..` climbs one level, an empty segment or `.` stays, any other segment
/// descends. `None` once the walk would climb above the root.
pub open spec fn descent(segs: Seq<Seq<char>>, depth: int) -> Option<int>
    decreases segs.len(),
{
    if segs.len() == 0 {
        Some(depth)
    } else if segs[0] == seq!['.', '.'] {
        if depth <= 0 {
            None
        } else {
            descent(segs.drop_first(), depth - 1)
        }
    } else if segs[0].len() == 0 || segs[0] == seq!['.'] {
        descent(segs.drop_first(), depth)
    } else {
        descent(segs.drop_first(), depth + 1)
    }
}

/// A path that is relative and never climbs above the directory it starts in.
pub open spec fn stays_within_root(p: Seq<char>) -> bool {
    (p.len() == 0 || p[0] != '/') && descent(segments(p), 0) is Some
}

/// Walking normal segments only descends.
pub proof fn lemma_descent_of_normal(comps: Seq<Seq<char>>, depth: int)
    requires
        is_normal_path(comps),
        depth >= 0,
    ensures
        descent(comps, depth) == Some(depth + comps.len()),
    decreases comps.len(),
{
    if comps.len() > 0 {
        let rest = comps.drop_first();
        assert forall|i: int| 0 <= i < rest.len() implies is_normal_segment(#[trigger] rest[i]) by {
            assert(rest[i] == comps[i + 1]);
        }
        assert(is_normal_segment(comps[0]));
        lemma_descent_of_normal(rest, depth + 1);
    }
}

/// A joined path starts as its first part does.
pub proof fn lemma_join_starts_with_first_part(parts: Seq<Seq<char>>)
    requires
        parts.len() > 0,
        parts[0].len() > 0,
    ensures
        join(parts).len() > 0,
        join(parts)[0] == parts[0][0],
    decreases parts.len(),
{
    if parts.len() > 1 {
        lemma_join_starts_with_first_part(parts.drop_last());
    }
}

/// The string form of a normal path is relative, never climbs above the
/// directory it starts in, and ends as many levels below it as the path has
/// segments.
pub proof fn lemma_normal_path_stays_within_root(comps: Seq<Seq<char>>)
    requires
        is_normal_path(comps),
    ensures
        stays_within_root(path_string(comps)),
        descent(segments(path_string(comps)), 0) == Some(comps.len() as int),
{
    lemma_segments_of_path_string(comps);
    let parts = seq![seq!['.']] + comps;
    assert(parts[0] == seq!['.']);
    assert(parts.drop_first() =~= comps);
    lemma_descent_of_normal(comps, 0);
    lemma_join_starts_with_first_part(parts);
    assert(seq!['.'].len() == 1 && seq!['.'][0] == '.');
    assert(seq!['.', '.'].len() == 2);
}

/// Traversal safety: whatever the request path holds, be it `..`, a leading
/// `/` or anything else, the string form of its sanitized path never leaves
/// the serve root.
pub proof fn lemma_sanitized_path_stays_within_root(p: Seq<char>)
    ensures
        is_normal_path(normal_components(p)),
        stays_within_root(path_string(normal_components(p))),
        descent(segments(path_string(normal_components(p))), 0) == Some(
            normal_components(p).len() as int,
        ),
{
    lemma_keep_normal_is_normal(segments(p));
    lemma_normal_path_stays_within_root(normal_components(p));
}

/// A request path reduced to its normal segments, always relative to the
/// serve root.
#[derive(Debug, PartialEq, Eq)]
pub struct SanitizedPath {
    segments: Vec<String>,
}

impl View for SanitizedPath {
    type V = Seq<Seq<char>>;

    closed spec fn view(&self) -> Seq<Seq<char>> {
        names(self.segments@)
    }
}

impl SanitizedPath {
    #[verifier::type_invariant]
    spec fn only_normal_segments(self) -> bool {
        is_normal_path(names(self.segments@))
    }
}

impl SanitizedPath {
    /// The segments of the path, from the root down.
    pub fn components(&self) -> (segs: &Vec<String>)
        ensures
            names(segs@) == self@,
            is_normal_path(self@),
    {
        proof {
            use_type_invariant(self);
        }
        &self.segments
    }

    /// The segments with a `/` between neighbours: the path as seen from the
    /// root, empty for the root itself.
    pub fn joined(&self) -> (s: String)
        ensures
            s@ == join(self@),
    {
        proof {
            reveal_strlit("/");
        }
        let mut s = String::new();
        let n: usize = self.segments.len();
        let mut i: usize = 0;
        assert(self@.take(0) =~= Seq::<Seq<char>>::empty());
        while i < n
            invariant
                i <= n,
                n == self.segments@.len(),
                self@ == names(self.segments@),
                s@ == join(self@.take(i as int)),
                "/"@ == seq!['/'],
            decreases n - i,
        {
            let ghost next = self@.take(i + 1);
            proof {
                assert(next.drop_last() =~= self@.take(i as int));
                assert(next.last() == self.segments@[i as int]@);
            }
            if i > 0 {
                s.append("/");
            }
            s.append(self.segments[i].as_str());
            assert(s@ =~= join(next));
            i += 1;
        }
        assert(self@.take(n as int) =~= self@);
        s
    }

    /// The first segment and the path below it; `None` for the root.
    pub fn split_first(self) -> (r: Option<(String, SanitizedPath)>)
        ensures
            match r {
                Some((first, rest)) => self@.len() > 0 && first@ == self@[0] && rest@
                    == self@.drop_first(),
                None => self@.len() == 0,
            },
    {
        proof {
            use_type_invariant(&self);
        }
        let mut rest = self.segments;
        let ghost all = names(rest@);
        if rest.len() == 0 {
            None
        } else {
            let first = rest.remove(0);
            assert(names(rest@) =~= all.drop_first());
            Some((first, SanitizedPath { segments: rest }))
        }
    }
}

/// The pieces of `path` between its `/` characters, empty pieces included.
pub fn split_segments(path: &str) -> (pieces: Vec<String>)
    ensures
        names(pieces@) == segments(path@),
        forall|k: int| 0 <= k < pieces@.len() ==> is_separator_free(#[trigger] pieces@[k]@),
{
    let n: usize = path.unicode_len();
    let mut pieces: Vec<String> = Vec::new();
    let mut start: usize = 0;
    let mut i: usize = 0;
    assert(path@.skip(0) =~= path@);
    assert(names(pieces@) + segments(path@) =~= segments(path@));
    while i < n
        invariant
            n == path@.len(),
            start <= i <= n,
            forall|j: int| start <= j < i ==> path@[j] != '/',
            segments(path@) == names(pieces@) + segments(path@.skip(start as int)),
            forall|k: int| 0 <= k < pieces@.len() ==> is_separator_free(#[trigger] pieces@[k]@),
        decreases n - i,
    {
        if path.get_char(i) == '/' {
            let ghost q = path@.skip(start as int);
            let ghost head = path@.subrange(start as int, i as int);
            let ghost before = names(pieces@);
            proof {
                lemma_segments_at_separator(q, i - start);
                assert(q.take(i - start) =~= head);
                assert(q.skip(i - start + 1) =~= path@.skip(i + 1));
                assert(is_separator_free(head)) by {
                    assert forall|j: int| 0 <= j < head.len() implies head[j] != '/' by {
                        assert(head[j] == path@[start + j]);
                    }
                }
            }
            pieces.push(String::from_str(path.substring_char(start, i)));
            assert(names(pieces@) =~= before.push(head));
            assert(before + (seq![head] + segments(path@.skip(i + 1))) =~= before.push(head)
                + segments(path@.skip(i + 1)));
            start = i + 1;
        }
        i += 1;
    }
    let ghost q = path@.skip(start as int);
    let ghost before = names(pieces@);
    proof {
        lemma_segments_without_separator(q);
        assert(q =~= path@.subrange(start as int, n as int));
    }
    pieces.push(String::from_str(path.substring_char(start, n)));
    assert(names(pieces@) =~= before.push(q));
    assert(before + seq![q] =~= before.push(q));
    pieces
}

/// Whether a piece of a path is neither empty nor `.` nor `..`.
fn is_normal(piece: &str) -> (r: bool)
    requires
        is_separator_free(piece@),
    ensures
        r == is_normal_segment(piece@),
{
    let n: usize = piece.unicode_len();
    proof {
        assert(seq!['.'].len() == 1 && seq!['.'][0] == '.');
        assert(seq!['.', '.'].len() == 2 && seq!['.', '.'][0] == '.' && seq!['.', '.'][1] == '.');
    }
    if n == 0 {
        false
    } else if n == 1 {
        let c = piece.get_char(0);
        if c == '.' {
            assert(piece@ =~= seq!['.']);
        }
        c != '.'
    } else if n == 2 {
        let c0 = piece.get_char(0);
        let c1 = piece.get_char(1);
        if c0 == '.' && c1 == '.' {
            assert(piece@ =~= seq!['.', '.']);
        }
        !(c0 == '.' && c1 == '.')
    } else {
        true
    }
}

/// Keeps the normal segments of `path`, in order, and drops every other one:
/// empty segments, `.` and `..` are never traversed.
pub fn sanitize_path(path: &str) -> (r: SanitizedPath)
    ensures
        r@ == normal_components(path@),
{
    let pieces = split_segments(path);
    let ghost all = names(pieces@);
    let n: usize = pieces.len();
    let mut kept: Vec<String> = Vec::new();
    let mut i: usize = 0;
    assert(all.skip(0) =~= all);
    assert(names(kept@) + keep_normal(all) =~= keep_normal(all));
    while i < n
        invariant
            i <= n,
            n == pieces@.len(),
            all == names(pieces@),
            forall|k: int| 0 <= k < pieces@.len() ==> is_separator_free(#[trigger] pieces@[k]@),
            keep_normal(all) == names(kept@) + keep_normal(all.skip(i as int)),
            is_normal_path(names(kept@)),
        decreases n - i,
    {
        let ghost before = names(kept@);
        let ghost rest = all.skip(i + 1);
        proof {
            assert(all.skip(i as int) =~= seq![all[i as int]] + rest);
            lemma_keep_normal_cons(all[i as int], rest);
        }
        if is_normal(pieces[i].as_str()) {
            kept.push(pieces[i].clone());
            assert(names(kept@) =~= before.push(all[i as int]));
            assert(before + (seq![all[i as int]] + keep_normal(rest)) =~= before.push(
                all[i as int],
            ) + keep_normal(rest));
        }
        i += 1;
    }
    assert(all.skip(n as int) =~= Seq::<Seq<char>>::empty());
    assert(names(kept@) + Seq::<Seq<char>>::empty() =~= names(kept@));
    SanitizedPath { segments: kept }
}

/// The string form of a sanitized path: `.` alone for the root, otherwise `.`
/// followed by `/` and a segment for each segment of the path.
pub fn path_to_string(path: &SanitizedPath) -> (s: String)
    ensures
        s@ == path_string(path@),
        is_normal_path(path@),
        stays_within_root(s@),
{
    proof {
        use_type_invariant(path);
        lemma_normal_path_stays_within_root(path@);
        reveal_strlit(".");
        reveal_strlit("/");
    }
    let mut s = String::from_str(".");
    let n: usize = path.segments.len();
    let mut i: usize = 0;
    assert(s@ =~= seq!['.']);
    assert(seq![seq!['.']] + path@.take(0) =~= seq![seq!['.']]);
    while i < n
        invariant
            i <= n,
            n == path.segments@.len(),
            path@ == names(path.segments@),
            s@ == path_string(path@.take(i as int)),
            "/"@ == seq!['/'],
        decreases n - i,
    {
        let ghost prev = seq![seq!['.']] + path@.take(i as int);
        let ghost next = seq![seq!['.']] + path@.take(i + 1);
        s.append("/");
        s.append(path.segments[i].as_str());
        proof {
            assert(next.drop_last() =~= prev);
            assert(next.last() == path.segments@[i as int]@);
        }
        i += 1;
    }
    assert(path@.take(n as int) =~= path@);
    s
}

} // verus!
