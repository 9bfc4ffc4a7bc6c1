use vstd::prelude::*;
use vstd::string::*;

use crate::error::ShareError;

verus! {

/// One component of a filesystem path, as the host platform splits it.
pub enum PathComponent {
    /// A drive or share prefix (only on some platforms).
    Prefix,
    /// The root directory.
    RootDir,
    /// A `.` component.
    CurDir,
    /// A `..` component.
    ParentDir,
    /// An ordinary segment; `None` where it is not valid UTF-8.
    Normal(Option<String>),
}

/// What a valid component contributes to a canonical name.
pub enum Piece {
    Root,
    Segment(Seq<char>),
}

/// A segment that holds a separator of some platform cannot stand in a
/// portable name.
pub open spec fn has_separator(s: Seq<char>) -> bool {
    s.contains('/') || s.contains('\\')
}

pub open spec fn piece_of(c: PathComponent, must_be_relative: bool) -> Option<Piece> {
    match c {
        PathComponent::Normal(Some(s)) => if has_separator(s@) {
            None
        } else {
            Some(Piece::Segment(s@))
        },
        PathComponent::RootDir => if must_be_relative {
            None
        } else {
            Some(Piece::Root)
        },
        _ => None,
    }
}

/// The number of root components and the segments, in order, of a path all
/// of whose components are valid; `None` where one is not.
pub open spec fn pieces_of(cs: Seq<PathComponent>, must_be_relative: bool) -> Option<(nat, Seq<Seq<char>>)>
    decreases cs.len(),
{
    if cs.len() == 0 {
        Some((0, Seq::empty()))
    } else {
        match pieces_of(cs.drop_last(), must_be_relative) {
            None => None,
            Some((n, segs)) => match piece_of(cs.last(), must_be_relative) {
                None => None,
                Some(Piece::Root) => Some((n + 1, segs)),
                Some(Piece::Segment(s)) => Some((n, segs.push(s))),
            },
        }
    }
}

pub open spec fn slashes(n: nat) -> Seq<char>
    decreases n,
{
    if n == 0 {
        Seq::empty()
    } else {
        slashes((n - 1) as nat).push('/')
    }
}

/// The segments joined with `/` between each two.
pub open spec fn join_segments(segs: Seq<Seq<char>>) -> Seq<char>
    decreases segs.len(),
{
    if segs.len() == 0 {
        Seq::empty()
    } else if segs.len() == 1 {
        segs[0]
    } else {
        join_segments(segs.drop_last()) + seq!['/'] + segs.last()
    }
}

/// The portable name of a path: a `/` for each root component, then the
/// segments joined with `/`.
pub open spec fn canonical_name(cs: Seq<PathComponent>, must_be_relative: bool) -> Option<Seq<char>> {
    match pieces_of(cs, must_be_relative) {
        None => None,
        Some((n, segs)) => Some(slashes(n) + join_segments(segs)),
    }
}

pub open spec fn views(v: Seq<String>) -> Seq<Seq<char>> {
    v.map_values(|s: String| s@)
}

proof fn lemma_invalid_prefix(cs: Seq<PathComponent>, j: int, must_be_relative: bool)
    requires
        0 <= j <= cs.len(),
        pieces_of(cs.take(j), must_be_relative) is None,
    ensures
        pieces_of(cs, must_be_relative) is None,
    decreases cs.len(),
{
    if j == cs.len() {
        assert(cs.take(j) =~= cs);
    } else {
        assert(cs.drop_last().take(j) =~= cs.take(j));
        lemma_invalid_prefix(cs.drop_last(), j, must_be_relative);
    }
}

fn contains_separator(s: &String) -> (r: bool)
    ensures
        r == has_separator(s@),
{
    let st = s.as_str();
    let n = st.unicode_len();
    let mut i: usize = 0;
    while i < n
        invariant
            n == st@.len(),
            st@ == s@,
            i <= n,
            forall|j: int| 0 <= j < i ==> st@[j] != '/' && st@[j] != '\\',
        decreases n - i,
    {
        let c = st.get_char(i);
        if c == '/' || c == '\\' {
            assert(st@[i as int] == c);
            return true;
        }
        i += 1;
    }
    false
}

/// Turns a path into a portable name: its segments joined with `/`, after a
/// `/` for each root component. Fails with `InvalidPathComponent` on a
/// segment that is not UTF-8 or holds `/` or `\`, on `.`, `..` or a prefix,
/// and on a root component where the name must be relative.
pub fn canonicalized_path_to_string(path: &[PathComponent], must_be_relative: bool) -> (r: Result<
    String,
    ShareError,
>)
    ensures
        r is Ok <==> canonical_name(path@, must_be_relative) is Some,
        r matches Ok(s) ==> canonical_name(path@, must_be_relative) == Some(s@),
        r matches Err(e) ==> e == ShareError::InvalidPathComponent,
{
    let mut roots: usize = 0;
    let mut segs: Vec<String> = Vec::new();
    let mut i: usize = 0;
    while i < path.len()
        invariant
            i <= path.len(),
            roots <= i,
            pieces_of(path@.take(i as int), must_be_relative) == Some(
                (roots as nat, views(segs@)),
            ),
        decreases path.len() - i,
    {
        assert(path@.take(i + 1).drop_last() =~= path@.take(i as int));
        assert(path@.take(i + 1).last() == path@[i as int]);
        match &path[i] {
            PathComponent::Normal(Some(s)) => {
                if contains_separator(s) {
                    proof {
                        lemma_invalid_prefix(path@, i + 1, must_be_relative);
                    }
                    return Err(ShareError::InvalidPathComponent);
                }
                let ghost old_segs = segs@;
                segs.push(s.clone());
                assert(views(segs@) =~= views(old_segs).push(s@));
            },
            PathComponent::RootDir => {
                if must_be_relative {
                    proof {
                        lemma_invalid_prefix(path@, i + 1, must_be_relative);
                    }
                    return Err(ShareError::InvalidPathComponent);
                }
                roots += 1;
            },
            _ => {
                proof {
                    lemma_invalid_prefix(path@, i + 1, must_be_relative);
                }
                return Err(ShareError::InvalidPathComponent);
            },
        }
        i += 1;
    }
    assert(path@.take(path.len() as int) =~= path@);
    let mut out = String::new();
    let mut k: usize = 0;
    while k < roots
        invariant
            k <= roots,
            out@ == slashes(k as nat),
        decreases roots - k,
    {
        proof {
            reveal_strlit("/");
        }
        out.append("/");
        k += 1;
    }
    let mut j: usize = 0;
    while j < segs.len()
        invariant
            j <= segs.len(),
            out@ == slashes(roots as nat) + join_segments(views(segs@).take(j as int)),
        decreases segs.len() - j,
    {
        let ghost before = out@;
        let ghost vs = views(segs@);
        assert(vs.take(j + 1).drop_last() =~= vs.take(j as int));
        proof {
            reveal_strlit("/");
        }
        if j > 0 {
            out.append("/");
        }
        out.append(segs[j].as_str());
        assert(out@ =~= slashes(roots as nat) + join_segments(vs.take(j + 1)));
        j += 1;
    }
    assert(views(segs@).take(segs.len() as int) =~= views(segs@));
    Ok(out)
}

/// The pieces of a text between its `/` characters, in order; a text
/// without `/` is one piece.
pub open spec fn split_slash(s: Seq<char>) -> Seq<Seq<char>>
    decreases s.len(),
{
    if s.len() == 0 {
        seq![Seq::empty()]
    } else {
        let p = split_slash(s.drop_last());
        if s.last() == '/' {
            p.push(Seq::empty())
        } else {
            p.update(p.len() - 1, p.last().push(s.last()))
        }
    }
}

/// A segment that may stand in a portable name: not empty, not `.` or
/// `..`, without a separator.
pub open spec fn segment_valid(seg: Seq<char>) -> bool {
    seg.len() > 0 && seg != seq!['.'] && seg != seq!['.', '.'] && !has_separator(seg)
}

/// The segments of a portable name, where each of them is valid; `None`
/// where the name would escape the directory it is read under.
pub open spec fn name_segments_of(name: Seq<char>) -> Option<Seq<Seq<char>>> {
    let segs = split_slash(name);
    if forall|i: int| 0 <= i < segs.len() ==> segment_valid(#[trigger] segs[i]) {
        Some(segs)
    } else {
        None
    }
}

proof fn lemma_split_nonempty(s: Seq<char>)
    ensures
        split_slash(s).len() >= 1,
    decreases s.len(),
{
    if s.len() > 0 {
        lemma_split_nonempty(s.drop_last());
    }
}

fn is_valid_segment(seg: &str) -> (r: bool)
    ensures
        r == segment_valid(seg@),
{
    let n = seg.unicode_len();
    if n == 0 {
        return false;
    }
    if n <= 2 {
        let mut dots = true;
        let mut i: usize = 0;
        while i < n
            invariant
                n == seg@.len() <= 2,
                i <= n,
                dots == forall|j: int| 0 <= j < i ==> seg@[j] == '.',
            decreases n - i,
        {
            if seg.get_char(i) != '.' {
                dots = false;
            }
            i += 1;
        }
        if dots {
            assert(seg@ =~= seq!['.'] || seg@ =~= seq!['.', '.']);
            return false;
        }
        assert(exists|j: int| 0 <= j < n && seg@[j] != '.');
    }
    let owned = String::from_str(seg);
    !contains_separator(&owned)
}

/// Reads a portable name back into its segments, the inverse of
/// `canonicalized_path_to_string` on relative paths. Fails with
/// `InvalidPathComponent` where a segment is empty, `.` or `..`, or holds
/// `\`, so that no name can reach outside the directory it is placed under.
pub fn name_segments(name: &str) -> (r: Result<Vec<String>, ShareError>)
    ensures
        r is Ok <==> name_segments_of(name@) is Some,
        r matches Ok(v) ==> name_segments_of(name@) == Some(views(v@)),
        r matches Err(e) ==> e == ShareError::InvalidPathComponent,
{
    let n = name.unicode_len();
    let mut done: Vec<String> = Vec::new();
    let mut start: usize = 0;
    let mut i: usize = 0;
    assert(name@.take(0) =~= Seq::<char>::empty());
    assert(views(done@).push(name@.subrange(0, 0)) =~= seq![Seq::<char>::empty()]);
    while i < n
        invariant
            n == name@.len(),
            start <= i <= n,
            split_slash(name@.take(i as int)) == views(done@).push(name@.subrange(start as int, i as int)),
        decreases n - i,
    {
        let ghost pre = name@.take(i as int);
        assert(name@.take(i + 1).drop_last() =~= pre);
        assert(name@.take(i + 1).last() == name@[i as int]);
        let c = name.get_char(i);
        if c == '/' {
            let piece = String::from_str(name.substring_char(start, i));
            let ghost old_done = done@;
            done.push(piece);
            assert(views(done@) =~= views(old_done).push(name@.subrange(start as int, i as int)));
            start = i + 1;
            assert(name@.subrange(start as int, i + 1) =~= Seq::<char>::empty());
        } else {
            assert(name@.subrange(start as int, i + 1) =~= name@.subrange(start as int, i as int).push(c));
        }
        i += 1;
    }
    let last = String::from_str(name.substring_char(start, n));
    let ghost old_done = done@;
    done.push(last);
    assert(name@.take(n as int) =~= name@);
    assert(views(done@) =~= views(old_done).push(name@.subrange(start as int, n as int)));
    let ghost segs = views(done@);
    let mut k: usize = 0;
    while k < done.len()
        invariant
            k <= done.len(),
            segs == views(done@),
            segs == split_slash(name@),
            forall|j: int| 0 <= j < k ==> segment_valid(#[trigger] segs[j]),
        decreases done.len() - k,
    {
        if !is_valid_segment(done[k].as_str()) {
            assert(!segment_valid(segs[k as int]));
            return Err(ShareError::InvalidPathComponent);
        }
        k += 1;
    }
    Ok(done)
}

proof fn lemma_split_single(l: Seq<char>)
    requires
        !l.contains('/'),
    ensures
        split_slash(l) == seq![l],
    decreases l.len(),
{
    if l.len() > 0 {
        let d = l.drop_last();
        assert(!d.contains('/')) by {
            if d.contains('/') {
                let j = choose|j: int| 0 <= j < d.len() && d[j] == '/';
                assert(l[j] == '/');
            }
        }
        lemma_split_single(d);
        assert(l.last() != '/') by {
            assert(l[l.len() - 1] == l.last());
        }
        assert(d.push(l.last()) =~= l);
        assert(seq![d].update(0, d.push(l.last())) =~= seq![l]);
    } else {
        assert(l =~= Seq::<char>::empty());
    }
}

proof fn lemma_split_append(x: Seq<char>, l: Seq<char>)
    requires
        !l.contains('/'),
    ensures
        split_slash(x + seq!['/'] + l) == split_slash(x).push(l),
    decreases l.len(),
{
    let s = x + seq!['/'] + l;
    if l.len() == 0 {
        assert(s.drop_last() =~= x);
        assert(l =~= Seq::<char>::empty());
    } else {
        let d = l.drop_last();
        assert(!d.contains('/')) by {
            if d.contains('/') {
                let j = choose|j: int| 0 <= j < d.len() && d[j] == '/';
                assert(l[j] == '/');
            }
        }
        lemma_split_append(x, d);
        assert(s.drop_last() =~= x + seq!['/'] + d);
        assert(l.last() != '/') by {
            assert(l[l.len() - 1] == l.last());
        }
        assert(d.push(l.last()) =~= l);
        assert(split_slash(x).push(d).update(split_slash(x).len() as int, d.push(l.last()))
            =~= split_slash(x).push(l));
    }
}

proof fn lemma_split_join(segs: Seq<Seq<char>>)
    requires
        segs.len() >= 1,
        forall|i: int| 0 <= i < segs.len() ==> !(#[trigger] segs[i]).contains('/'),
    ensures
        split_slash(join_segments(segs)) == segs,
    decreases segs.len(),
{
    if segs.len() == 1 {
        lemma_split_single(segs[0]);
        assert(seq![segs[0]] =~= segs);
    } else {
        let d = segs.drop_last();
        assert forall|i: int| 0 <= i < d.len() implies !(#[trigger] d[i]).contains('/') by {
            assert(d[i] == segs[i]);
        }
        lemma_split_join(d);
        assert(!segs.last().contains('/')) by {
            assert(segs[segs.len() - 1] == segs.last());
        }
        lemma_split_append(join_segments(d), segs.last());
        assert(d.push(segs.last()) =~= segs);
    }
}

/// Reading back the portable name of a relative path gives the path's
/// segments, where there is at least one and each of them is valid.
pub proof fn lemma_name_round_trip(cs: Seq<PathComponent>, segs: Seq<Seq<char>>)
    requires
        pieces_of(cs, true) == Some((0nat, segs)),
        segs.len() >= 1,
        forall|i: int| 0 <= i < segs.len() ==> segment_valid(#[trigger] segs[i]),
    ensures
        canonical_name(cs, true) == Some(join_segments(segs)),
        name_segments_of(join_segments(segs)) == Some(segs),
{
    assert(slashes(0) + join_segments(segs) =~= join_segments(segs));
    lemma_split_join(segs);
}

} // verus!
