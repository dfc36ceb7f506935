//! Normalisation of request paths: empty and `.` segments are dropped and a
//! `..` segment removes the segment kept before it.
use vstd::prelude::*;

verus! {

/// The segments of `s` between the `/` characters, as `str::split` gives them.
pub open spec fn split_slash(s: Seq<char>) -> Seq<Seq<char>>
    decreases s.len(),
{
    if s.len() == 0 {
        seq![Seq::<char>::empty()]
    } else {
        let prev = split_slash(s.drop_last());
        if s.last() == '/' {
            prev.push(Seq::<char>::empty())
        } else {
            prev.update(prev.len() - 1, prev.last().push(s.last()))
        }
    }
}

/// One segment applied to the segments kept so far.
pub open spec fn step(kept: Seq<Seq<char>>, seg: Seq<char>) -> Seq<Seq<char>> {
    if seg.len() == 0 || seg == seq!['.'] {
        kept
    } else if seg == seq!['.', '.'] {
        if kept.len() > 0 {
            kept.drop_last()
        } else {
            kept
        }
    } else {
        kept.push(seg)
    }
}

/// The segments that remain once every segment has been applied in turn.
pub open spec fn resolve(segs: Seq<Seq<char>>) -> Seq<Seq<char>>
    decreases segs.len(),
{
    if segs.len() == 0 {
        Seq::empty()
    } else {
        step(resolve(segs.drop_last()), segs.last())
    }
}

/// The segments joined with `/`.
pub open spec fn join_slash(segs: Seq<Seq<char>>) -> Seq<char>
    decreases segs.len(),
{
    if segs.len() == 0 {
        Seq::empty()
    } else if segs.len() == 1 {
        segs[0]
    } else {
        join_slash(segs.drop_last()) + seq!['/'] + segs.last()
    }
}

/// The normal form of a path.
pub open spec fn normalized(path: Seq<char>) -> Seq<char> {
    join_slash(resolve(split_slash(path)))
}

pub proof fn lemma_split_nonempty(s: Seq<char>)
    ensures
        split_slash(s).len() >= 1,
    decreases s.len(),
{
    if s.len() > 0 {
        lemma_split_nonempty(s.drop_last());
    }
}

/// Relies on `String::push`: appends one character.
#[verifier::external_body]
fn push_char(s: &mut String, c: char)
    ensures
        final(s)@ == old(s)@.push(c),
{
    s.push(c)
}

/// Applies the finished segment `seg` to the kept segments.
fn apply_segment(kept: &mut Vec<String>, seg: String, seg_len: usize)
    requires
        seg_len == seg@.len(),
    ensures
        crate::address::views(final(kept)@) == step(crate::address::views(old(kept)@), seg@),
{
    let ghost before = crate::address::views(kept@);
    if seg_len == 0 {
    } else if seg_len == 1 && seg.as_str().get_char(0) == '.' {
        assert(seg@ =~= seq!['.']);
    } else if seg_len == 2 && seg.as_str().get_char(0) == '.' && seg.as_str().get_char(1) == '.' {
        assert(seg@ =~= seq!['.', '.']);
        if kept.len() > 0 {
            kept.pop();
            assert(crate::address::views(kept@) =~= before.drop_last());
        }
    } else {
        proof {
            if seg@ == seq!['.'] {
                assert(seg@[0] == '.');
            }
            if seg@ == seq!['.', '.'] {
                assert(seg@[0] == '.' && seg@[1] == '.');
            }
        }
        kept.push(seg);
        assert(crate::address::views(kept@) =~= before.push(seg@));
    }
}

/// The segments of the normal form of `path`: its segments, with empty and
/// `.` segments dropped and each `..` removing the segment kept before it.
pub fn path_segments(path: &str) -> (r: Vec<String>)
    ensures
        crate::address::views(r@) == resolve(split_slash(path@)),
{
    broadcast use vstd::string::axiom_spec_iter, vstd::string::next_postcondition;

    let mut kept: Vec<String> = Vec::new();
    let mut seg = String::new();
    let mut seg_len: usize = 0;
    let n = path.unicode_len();
    let mut chars = path.chars();
    let mut i: usize = 0;
    loop
        invariant
            n == path@.len(),
            i <= n,
            vstd::std_specs::iter::IteratorSpec::obeys_prophetic_iter_laws(&chars),
            vstd::std_specs::iter::IteratorSpec::remaining(&chars) == path@.subrange(
                i as int,
                n as int,
            ),
            seg_len == seg@.len(),
            seg_len <= i,
            split_slash(path@.subrange(0, i as int)).len() >= 1,
            seg@ == split_slash(path@.subrange(0, i as int)).last(),
            crate::address::views(kept@) == resolve(
                split_slash(path@.subrange(0, i as int)).drop_last(),
            ),
        ensures
            i == n,
        decreases n - i,
    {
        let c = match chars.next() {
            Some(c) => c,
            None => {
                assert(path@.subrange(i as int, n as int).len() == 0);
                break;
            },
        };
        assert(c == path@.subrange(i as int, n as int)[0]);
        let ghost prefix = path@.subrange(0, i as int);
        let ghost next = path@.subrange(0, i + 1);
        assert(next.drop_last() =~= prefix);
        assert(next.last() == c);
        let ghost parts = split_slash(prefix);
        if c == '/' {
            let finished = seg;
            seg = String::new();
            apply_segment(&mut kept, finished, seg_len);
            seg_len = 0;
            proof {
                let np = split_slash(next);
                assert(np == parts.push(Seq::<char>::empty()));
                assert(np.drop_last() =~= parts);
                assert(parts =~= parts.drop_last().push(parts.last()));
            }
        } else {
            push_char(&mut seg, c);
            seg_len = seg_len + 1;
            proof {
                let np = split_slash(next);
                assert(np == parts.update(parts.len() - 1, parts.last().push(c)));
                assert(np.drop_last() =~= parts.drop_last());
            }
        }
        i = i + 1;
        assert(vstd::std_specs::iter::IteratorSpec::remaining(&chars) =~= path@.subrange(
            i as int,
            n as int,
        ));
    }
    proof {
        let parts = split_slash(path@.subrange(0, i as int));
        assert(path@.subrange(0, i as int) =~= path@);
        assert(parts =~= parts.drop_last().push(parts.last()));
        assert(parts.drop_last() =~= parts.drop_last());
    }
    apply_segment(&mut kept, seg, seg_len);
    proof {
        let parts = split_slash(path@);
        assert(parts.drop_last().push(parts.last()) =~= parts);
        assert(resolve(parts) == step(resolve(parts.drop_last()), parts.last()));
    }
    kept
}

/// The normal form of `path`: its segments, with empty and `.` segments
/// dropped and each `..` removing the segment kept before it, joined by `/`.
pub fn normalize_path(path: &str) -> (r: String)
    ensures
        r@ == normalized(path@),
{
    let kept = path_segments(path);
    let ghost segs = crate::address::views(kept@);
    let mut out = String::new();
    let mut j: usize = 0;
    while j < kept.len()
        invariant
            j <= kept@.len(),
            segs == crate::address::views(kept@),
            out@ == join_slash(segs.subrange(0, j as int)),
        decreases kept@.len() - j,
    {
        let ghost done = segs.subrange(0, j as int);
        let ghost more = segs.subrange(0, j + 1);
        assert(more.drop_last() =~= done);
        if j > 0 {
            out.append("/");
            proof {
                reveal_strlit("/");
            }
        }
        out.append(kept[j].as_str());
        proof {
            if j == 0 {
                assert(out@ =~= more[0]);
            } else {
                assert(out@ =~= join_slash(done) + seq!['/'] + more.last());
            }
        }
        j = j + 1;
    }
    assert(segs.subrange(0, j as int) =~= segs);
    out
}

/// A segment that normalisation keeps as it is: non-empty, not `.` or `..`,
/// and free of `/`.
pub open spec fn plain(seg: Seq<char>) -> bool {
    &&& seg.len() > 0
    &&& seg != seq!['.']
    &&& seg != seq!['.', '.']
    &&& forall|i: int| 0 <= i < seg.len() ==> seg[i] != '/'
}

proof fn lemma_split_no_slash(s: Seq<char>)
    ensures
        forall|k: int, i: int|
            0 <= k < split_slash(s).len() && 0 <= i < split_slash(s)[k].len() ==> #[trigger] split_slash(
                s,
            )[k][i] != '/',
    decreases s.len(),
{
    lemma_split_nonempty(s);
    if s.len() > 0 {
        lemma_split_no_slash(s.drop_last());
        lemma_split_nonempty(s.drop_last());
    }
}

proof fn lemma_resolve_plain(segs: Seq<Seq<char>>)
    requires
        forall|k: int, i: int|
            0 <= k < segs.len() && 0 <= i < segs[k].len() ==> #[trigger] segs[k][i] != '/',
    ensures
        forall|k: int| 0 <= k < resolve(segs).len() ==> plain(#[trigger] resolve(segs)[k]),
    decreases segs.len(),
{
    if segs.len() > 0 {
        let rest = segs.drop_last();
        assert forall|k: int, i: int|
            0 <= k < rest.len() && 0 <= i < rest[k].len() implies #[trigger] rest[k][i] != '/' by {
            assert(rest[k] == segs[k]);
        }
        lemma_resolve_plain(rest);
        let seg = segs.last();
        assert(forall|i: int| 0 <= i < seg.len() ==> seg[i] == segs[segs.len() - 1][i]);
        let r = resolve(rest);
        assert(resolve(segs) == step(r, seg));
        assert forall|k: int| 0 <= k < resolve(segs).len() implies plain(
            #[trigger] resolve(segs)[k],
        ) by {
            if k < r.len() {
                assert(resolve(segs)[k] == r[k]);
            } else {
                assert(resolve(segs)[k] == seg);
            }
        }
    }
}

proof fn lemma_resolve_plain_fixed(segs: Seq<Seq<char>>)
    requires
        forall|k: int| 0 <= k < segs.len() ==> plain(#[trigger] segs[k]),
    ensures
        resolve(segs) == segs,
    decreases segs.len(),
{
    if segs.len() > 0 {
        let rest = segs.drop_last();
        assert forall|k: int| 0 <= k < rest.len() implies plain(#[trigger] rest[k]) by {
            assert(rest[k] == segs[k]);
        }
        lemma_resolve_plain_fixed(rest);
        assert(plain(segs[segs.len() - 1]));
        assert(rest.push(segs.last()) =~= segs);
    }
}

proof fn lemma_split_append(x: Seq<char>, y: Seq<char>)
    requires
        forall|i: int| 0 <= i < y.len() ==> y[i] != '/',
    ensures
        split_slash(x + y) == split_slash(x).update(
            split_slash(x).len() - 1,
            split_slash(x).last() + y,
        ),
    decreases y.len(),
{
    lemma_split_nonempty(x);
    let sx = split_slash(x);
    if y.len() == 0 {
        assert(x + y =~= x);
        assert(sx.last() + y =~= sx.last());
        assert(sx.update(sx.len() - 1, sx.last()) =~= sx);
    } else {
        let y0 = y.drop_last();
        assert(forall|i: int| 0 <= i < y0.len() ==> y0[i] == y[i]);
        lemma_split_append(x, y0);
        assert((x + y).drop_last() =~= x + y0);
        assert((x + y).last() == y.last());
        assert(y.last() != '/');
        let prev = split_slash(x + y0);
        assert(prev.len() == sx.len());
        assert(prev.last() == sx.last() + y0);
        assert(sx.last() + y0.push(y.last()) =~= sx.last() + y);
        assert(y0.push(y.last()) =~= y);
        assert(prev.update(prev.len() - 1, prev.last().push(y.last())) =~= sx.update(
            sx.len() - 1,
            sx.last() + y,
        ));
    }
}

proof fn lemma_split_join(segs: Seq<Seq<char>>)
    requires
        segs.len() >= 1,
        forall|k: int| 0 <= k < segs.len() ==> plain(#[trigger] segs[k]),
    ensures
        split_slash(join_slash(segs)) == segs,
    decreases segs.len(),
{
    let e = Seq::<char>::empty();
    assert(split_slash(e) == seq![e]);
    let last = segs.last();
    assert(plain(segs[segs.len() - 1]));
    if segs.len() == 1 {
        lemma_split_append(e, last);
        assert(e + last =~= last);
        assert(e + last =~= segs[0]);
        assert(seq![e].update(0, e + last) =~= segs);
    } else {
        let rest = segs.drop_last();
        assert forall|k: int| 0 <= k < rest.len() implies plain(#[trigger] rest[k]) by {
            assert(rest[k] == segs[k]);
        }
        lemma_split_join(rest);
        let head = join_slash(rest) + seq!['/'];
        assert(head.drop_last() =~= join_slash(rest));
        assert(head.last() == '/');
        assert(split_slash(head) == rest.push(e));
        lemma_split_append(head, last);
        assert(join_slash(segs) == head + last);
        assert(e + last =~= last);
        assert(rest.push(e).update(rest.len() as int, last) =~= segs);
    }
}

/// Normalisation is idempotent: a normalised path is its own normal form.
pub proof fn lemma_normalize_idempotent(path: Seq<char>)
    ensures
        normalized(normalized(path)) == normalized(path),
{
    let segs = resolve(split_slash(path));
    lemma_split_no_slash(path);
    lemma_resolve_plain(split_slash(path));
    if segs.len() == 0 {
        let e = Seq::<char>::empty();
        assert(split_slash(e) == seq![e]);
        assert(seq![e].drop_last() =~= Seq::<Seq<char>>::empty());
        assert(resolve(seq![e]) == step(resolve(seq![e].drop_last()), e));
    } else {
        lemma_split_join(segs);
        lemma_resolve_plain_fixed(segs);
    }
}

/// Where normalisation keeps any segment, splitting the normal form at `/`
/// gives back exactly the kept segments.
pub proof fn lemma_normal_form_segments(path: Seq<char>)
    ensures
        resolve(split_slash(path)).len() > 0 ==> split_slash(normalized(path)) == resolve(
            split_slash(path),
        ),
{
    let segs = resolve(split_slash(path));
    lemma_split_no_slash(path);
    lemma_resolve_plain(split_slash(path));
    if segs.len() > 0 {
        lemma_split_join(segs);
    }
}

} // verus!
