use vstd::prelude::*;

verus! {

/// The path separator.
pub const SEPARATOR: u8 = 0x2f;

/// Splitting state after reading `p`: the segments completed so far and the
/// segment still being read.
pub open spec fn split_state(p: Seq<u8>) -> (Seq<Seq<u8>>, Seq<u8>)
    decreases p.len(),
{
    if p.len() == 0 {
        (Seq::empty(), Seq::empty())
    } else {
        let (segs, cur) = split_state(p.drop_last());
        if p.last() == SEPARATOR {
            if cur.len() > 0 {
                (segs.push(cur), Seq::empty())
            } else {
                (segs, Seq::empty())
            }
        } else {
            (segs, cur.push(p.last()))
        }
    }
}

/// The non-empty `/`-separated segments of `p`, in order.
pub open spec fn segments(p: Seq<u8>) -> Seq<Seq<u8>> {
    let (segs, cur) = split_state(p);
    if cur.len() > 0 {
        segs.push(cur)
    } else {
        segs
    }
}

/// Reading a separator closes the segment under way.
pub proof fn lemma_split_separator(p: Seq<u8>)
    ensures
        split_state(p.push(SEPARATOR)) == (segments(p), Seq::<u8>::empty()),
{
    assert(p.push(SEPARATOR).drop_last() =~= p);
}

/// Reading a name free of separators after a separator makes it the
/// segment under way.
pub proof fn lemma_split_name(q: Seq<u8>, name: Seq<u8>)
    requires
        split_state(q).1.len() == 0,
        !name.contains(SEPARATOR),
    ensures
        split_state(q + name) == (split_state(q).0, name),
    decreases name.len(),
{
    if name.len() == 0 {
        assert(q + name =~= q);
    } else {
        let init = name.drop_last();
        assert(!init.contains(SEPARATOR)) by {
            if init.contains(SEPARATOR) {
                let i = choose|i: int| 0 <= i < init.len() && init[i] == SEPARATOR;
                assert(name[i] == SEPARATOR);
            }
        }
        lemma_split_name(q, init);
        assert((q + name).drop_last() =~= q + init);
        assert(name.last() != SEPARATOR) by {
            if name.last() == SEPARATOR {
                assert(name[name.len() - 1] == SEPARATOR);
            }
        }
        assert(init.push(name.last()) =~= name);
    }
}

/// A path extended by a separator and a non-empty name free of separators
/// has that name as one more segment.
pub proof fn lemma_segments_append(p: Seq<u8>, name: Seq<u8>)
    requires
        name.len() > 0,
        !name.contains(SEPARATOR),
    ensures
        segments(p.push(SEPARATOR) + name) == segments(p).push(name),
{
    lemma_split_separator(p);
    lemma_split_name(p.push(SEPARATOR), name);
}

/// Splits `path` on `/` and drops the empty segments that leading, trailing
/// or repeated separators leave.
pub fn path_segments(path: &[u8]) -> (r: Vec<Vec<u8>>)
    ensures
        r.deep_view() == segments(path@),
{
    let mut segs: Vec<Vec<u8>> = Vec::new();
    let mut cur: Vec<u8> = Vec::new();
    let mut i: usize = 0;
    while i < path.len()
        invariant
            i <= path@.len(),
            (segs.deep_view(), cur@) == split_state(path@.subrange(0, i as int)),
        decreases path@.len() - i,
    {
        let c = path[i];
        proof {
            assert(path@.subrange(0, i + 1).drop_last() =~= path@.subrange(0, i as int));
        }
        if c == SEPARATOR {
            if cur.len() > 0 {
                let ghost before = segs.deep_view();
                let ghost done = cur@;
                assert(cur.deep_view() =~= done);
                segs.push(cur);
                assert(segs.deep_view() =~= before.push(done));
            }
            cur = Vec::new();
        } else {
            cur.push(c);
        }
        i = i + 1;
    }
    proof {
        assert(path@.subrange(0, path@.len() as int) =~= path@);
    }
    if cur.len() > 0 {
        let ghost before = segs.deep_view();
        let ghost done = cur@;
        assert(cur.deep_view() =~= done);
        segs.push(cur);
        assert(segs.deep_view() =~= before.push(done));
    }
    segs
}

/// The last non-empty segment of `path`, or nothing when it has none.
pub fn file_name(path: &[u8]) -> (r: Vec<u8>)
    ensures
        segments(path@).len() == 0 ==> r@ == Seq::<u8>::empty(),
        segments(path@).len() > 0 ==> r@ == segments(path@).last(),
{
    let mut segs = path_segments(path);
    match segs.pop() {
        Some(last) => last,
        None => Vec::new(),
    }
}

} // verus!
