use vstd::prelude::*;

verus! {

pub const NEWLINE: char = '\n';

pub const CARRIAGE_RETURN: char = '\r';

/// Unicode whitespace (the White_Space property): tab through carriage
/// return, space, next line, no-break space, ogham space mark, the spaces
/// from en quad to hair space, line and paragraph separators, narrow
/// no-break space, medium mathematical space and ideographic space.
pub open spec fn is_space(c: char) -> bool {
    let u = c as u32;
    (0x09 <= u <= 0x0d) || u == 0x20 || u == 0x85 || u == 0xa0 || u == 0x1680 || (0x2000 <= u
        <= 0x200a) || u == 0x2028 || u == 0x2029 || u == 0x202f || u == 0x205f || u == 0x3000
}

/// `l` without its leading whitespace.
pub open spec fn trim_start(l: Seq<char>) -> Seq<char>
    decreases l.len(),
{
    if l.len() > 0 && is_space(l[0]) {
        trim_start(l.drop_first())
    } else {
        l
    }
}

/// `l` without its trailing whitespace.
pub open spec fn trim_end(l: Seq<char>) -> Seq<char>
    decreases l.len(),
{
    if l.len() > 0 && is_space(l.last()) {
        trim_end(l.drop_last())
    } else {
        l
    }
}

/// `l` without leading or trailing whitespace.
pub open spec fn trim(l: Seq<char>) -> Seq<char> {
    trim_end(trim_start(l))
}

/// Line splitting state after reading `t`: the lines ended so far and the
/// line under way.
pub open spec fn line_state(t: Seq<char>) -> (Seq<Seq<char>>, Seq<char>)
    decreases t.len(),
{
    if t.len() == 0 {
        (Seq::empty(), Seq::empty())
    } else {
        let (ls, cur) = line_state(t.drop_last());
        if t.last() == NEWLINE {
            (ls.push(cur), Seq::empty())
        } else {
            (ls, cur.push(t.last()))
        }
    }
}

/// The lines of `t`: split at line feeds, with no empty line after a final
/// line feed.
pub open spec fn lines(t: Seq<char>) -> Seq<Seq<char>> {
    let (ls, cur) = line_state(t);
    if cur.len() > 0 {
        ls.push(cur)
    } else {
        ls
    }
}

/// Whether `l` begins with `http`.
pub open spec fn starts_with_http(l: Seq<char>) -> bool {
    l.len() >= 4 && l[0] == 'h' && l[1] == 't' && l[2] == 't' && l[3] == 'p'
}

/// The lines up to and including the first that begins with `http`, each
/// trimmed.
pub open spec fn kept_lines(ls: Seq<Seq<char>>) -> Seq<Seq<char>>
    decreases ls.len(),
{
    if ls.len() == 0 {
        Seq::empty()
    } else if starts_with_http(ls[0]) {
        seq![trim(ls[0])]
    } else {
        seq![trim(ls[0])] + kept_lines(ls.drop_first())
    }
}

/// `ls` joined by carriage return and line feed.
pub open spec fn join_crlf(ls: Seq<Seq<char>>) -> Seq<char>
    decreases ls.len(),
{
    if ls.len() == 0 {
        Seq::empty()
    } else if ls.len() == 1 {
        ls[0]
    } else {
        join_crlf(ls.drop_last()) + seq![CARRIAGE_RETURN, NEWLINE] + ls.last()
    }
}

/// A playlist cut down to its first stream: its lines up to and including
/// the first stream address (a line beginning with `http`), each stripped
/// of Unicode whitespace at both ends, joined by carriage return and line
/// feed.
pub fn first_stream_playlist(text: &str) -> (r: String)
    ensures
        r@ == join_crlf(kept_lines(lines(text@))),
{
    let chars = chars_of(text);
    let ls = split_lines(&chars);
    let ghost all = ls.deep_view();
    let mut kept: Vec<Vec<char>> = Vec::new();
    let mut i: usize = 0;
    assert(all.subrange(0, all.len() as int) =~= all);
    assert(kept.deep_view() + all =~= all);
    while i < ls.len()
        invariant
            all == ls.deep_view(),
            all == lines(text@),
            i <= all.len(),
            kept_lines(all) == kept.deep_view() + kept_lines(all.subrange(i as int, all.len() as int)),
        decreases all.len() - i,
    {
        let ghost rest = all.subrange(i as int, all.len() as int);
        proof {
            assert(ls@[i as int].deep_view() =~= ls@[i as int]@);
            assert(rest[0] == ls@[i as int]@);
            assert(rest.drop_first() =~= all.subrange(i + 1, all.len() as int));
        }
        let line = trim_line(&ls[i]);
        let is_stream = has_http_prefix(&ls[i]);
        let ghost before = kept.deep_view();
        let ghost tl = line@;
        assert(line.deep_view() =~= tl);
        kept.push(line);
        assert(kept.deep_view() =~= before.push(tl));
        if is_stream {
            proof {
                assert(kept_lines(rest) == seq![tl]);
                assert(before + seq![tl] =~= kept.deep_view());
                assert(kept.deep_view() + kept_lines(Seq::<Seq<char>>::empty()) =~= kept.deep_view());
                assert(all.subrange(all.len() as int, all.len() as int) =~= Seq::<Seq<char>>::empty());
            }
            i = ls.len();
        } else {
            proof {
                assert(kept_lines(rest) == seq![tl] + kept_lines(rest.drop_first()));
                assert(before + (seq![tl] + kept_lines(rest.drop_first())) =~= kept.deep_view()
                    + kept_lines(rest.drop_first()));
            }
            i = i + 1;
        }
    }
    proof {
        assert(all.subrange(all.len() as int, all.len() as int) =~= Seq::<Seq<char>>::empty());
        assert(kept.deep_view() + Seq::<Seq<char>>::empty() =~= kept.deep_view());
    }
    let joined = join_lines(&kept);
    string_from_chars(&joined)
}

/// The lines of `text`.
fn split_lines(text: &Vec<char>) -> (r: Vec<Vec<char>>)
    ensures
        r.deep_view() == lines(text@),
{
    let mut ls: Vec<Vec<char>> = Vec::new();
    let mut cur: Vec<char> = Vec::new();
    let mut i: usize = 0;
    while i < text.len()
        invariant
            i <= text@.len(),
            (ls.deep_view(), cur@) == line_state(text@.subrange(0, i as int)),
        decreases text@.len() - i,
    {
        let c = text[i];
        proof {
            assert(text@.subrange(0, i + 1).drop_last() =~= text@.subrange(0, i as int));
        }
        if c == NEWLINE {
            let ghost before = ls.deep_view();
            let ghost done = cur@;
            assert(cur.deep_view() =~= done);
            ls.push(cur);
            assert(ls.deep_view() =~= before.push(done));
            cur = Vec::new();
        } else {
            cur.push(c);
        }
        i = i + 1;
    }
    proof {
        assert(text@.subrange(0, text@.len() as int) =~= text@);
    }
    if cur.len() > 0 {
        let ghost before = ls.deep_view();
        let ghost done = cur@;
        assert(cur.deep_view() =~= done);
        ls.push(cur);
        assert(ls.deep_view() =~= before.push(done));
    }
    ls
}

/// `l` without leading or trailing whitespace.
fn trim_line(l: &Vec<char>) -> (r: Vec<char>)
    ensures
        r@ == trim(l@),
{
    let mut a: usize = 0;
    assert(l@.subrange(0, l@.len() as int) =~= l@);
    while a < l.len() && is_space_char(l[a])
        invariant
            a <= l@.len(),
            trim_start(l@) == trim_start(l@.subrange(a as int, l@.len() as int)),
        decreases l@.len() - a,
    {
        proof {
            assert(l@.subrange(a as int, l@.len() as int).drop_first() =~= l@.subrange(a + 1, l@.len() as int));
        }
        a = a + 1;
    }
    let mut b: usize = l.len();
    let ghost s = l@.subrange(a as int, l@.len() as int);
    proof {
        assert(s =~= l@.subrange(a as int, b as int));
    }
    while b > a && is_space_char(l[b - 1])
        invariant
            a <= b <= l@.len(),
            s == l@.subrange(a as int, l@.len() as int),
            trim_end(s) == trim_end(l@.subrange(a as int, b as int)),
        decreases b,
    {
        proof {
            assert(l@.subrange(a as int, b as int).drop_last() =~= l@.subrange(a as int, b - 1));
        }
        b = b - 1;
    }
    let mut out: Vec<char> = Vec::new();
    let mut i: usize = a;
    while i < b
        invariant
            a <= i <= b <= l@.len(),
            out@ == l@.subrange(a as int, i as int),
        decreases b - i,
    {
        out.push(l[i]);
        assert(out@ =~= l@.subrange(a as int, i + 1));
        i = i + 1;
    }
    out
}

fn is_space_char(c: char) -> (r: bool)
    ensures
        r == is_space(c),
{
    let u = c as u32;
    (0x09 <= u && u <= 0x0d) || u == 0x20 || u == 0x85 || u == 0xa0 || u == 0x1680 || (0x2000
        <= u && u <= 0x200a) || u == 0x2028 || u == 0x2029 || u == 0x202f || u == 0x205f || u
        == 0x3000
}

fn has_http_prefix(l: &Vec<char>) -> (r: bool)
    ensures
        r == starts_with_http(l@),
{
    l.len() >= 4 && l[0] == 'h' && l[1] == 't' && l[2] == 't' && l[3] == 'p'
}

/// Relies on std's `String::from_iter` over characters: the string holds
/// exactly the characters of `v`, in order.
#[verifier::external_body]
fn string_from_chars(v: &Vec<char>) -> (r: String)
    ensures
        r@ == v@,
{
    String::from_iter(v.iter())
}

/// `ls` joined by carriage return and line feed.
fn join_lines(ls: &Vec<Vec<char>>) -> (r: Vec<char>)
    ensures
        r@ == join_crlf(ls.deep_view()),
{
    let ghost all = ls.deep_view();
    let mut out: Vec<char> = Vec::new();
    let mut i: usize = 0;
    while i < ls.len()
        invariant
            all == ls.deep_view(),
            i <= all.len(),
            out@ == join_crlf(all.subrange(0, i as int)),
        decreases all.len() - i,
    {
        proof {
            assert(all.subrange(0, i + 1).drop_last() =~= all.subrange(0, i as int));
            assert(ls@[i as int].deep_view() =~= ls@[i as int]@);
        }
        if i > 0 {
            out.push(CARRIAGE_RETURN);
            out.push(NEWLINE);
        }
        let ghost prev = out@;
        let mut j: usize = 0;
        while j < ls[i].len()
            invariant
                i < all.len(),
                all == ls.deep_view(),
                j <= ls@[i as int]@.len(),
                out@ == prev + ls@[i as int]@.subrange(0, j as int),
            decreases ls@[i as int]@.len() - j,
        {
            out.push(ls[i][j]);
            proof {
                assert(ls@[i as int]@.subrange(0, j + 1) =~= ls@[i as int]@.subrange(0, j as int).push(ls@[i as int]@[j as int]));
            }
            j = j + 1;
        }
        proof {
            assert(ls@[i as int]@.subrange(0, ls@[i as int]@.len() as int) =~= ls@[i as int]@);
            if i == 0 {
                assert(out@ =~= join_crlf(all.subrange(0, 1)));
            } else {
                assert(out@ =~= join_crlf(all.subrange(0, i + 1)));
            }
        }
        i = i + 1;
    }
    proof {
        assert(all.subrange(0, all.len() as int) =~= all);
    }
    out
}

/// The characters of `s`.
fn chars_of(s: &str) -> (r: Vec<char>)
    ensures
        r@ == s@,
{
    broadcast use vstd::string::group_string_axioms;
    let mut v: Vec<char> = Vec::new();
    for c in it: s.chars()
        invariant
            v@ == it.seq().subrange(0, it.index() as int),
    {
        v.push(c);
    }
    v
}

} // verus!
