//! Reference names as text: splitting at `/` and joining components back.
use vstd::prelude::*;

verus! {

/// A path component: non-empty, with no `/`.
pub open spec fn is_component(c: Seq<char>) -> bool {
    c.len() > 0 && no_slash(c)
}

pub open spec fn no_slash(c: Seq<char>) -> bool {
    forall|i: int| 0 <= i < c.len() ==> c[i] != '/'
}

pub open spec fn all_components(cs: Seq<Seq<char>>) -> bool {
    forall|i: int| 0 <= i < cs.len() ==> is_component(#[trigger] cs[i])
}

/// The character sequences that a vector of strings holds.
pub open spec fn texts(v: Seq<String>) -> Seq<Seq<char>> {
    v.map_values(|c: String| c@)
}

/// The pieces of `s` between its `/` characters (always at least one).
pub open spec fn split_slash(s: Seq<char>) -> Seq<Seq<char>> {
    split_by(s, '/')
}

/// The pieces of `s` between its `sep` characters (always at least one).
pub open spec fn split_by(s: Seq<char>, sep: char) -> Seq<Seq<char>>
    decreases s.len(),
{
    if s.len() == 0 {
        seq![Seq::<char>::empty()]
    } else {
        let r = split_by(s.drop_last(), sep);
        if s.last() == sep {
            r.push(Seq::<char>::empty())
        } else {
            r.update(r.len() - 1, r.last().push(s.last()))
        }
    }
}

/// The components joined with `/` between each two.
pub open spec fn join_slash(cs: Seq<Seq<char>>) -> Seq<char>
    decreases cs.len(),
{
    if cs.len() == 0 {
        Seq::<char>::empty()
    } else if cs.len() == 1 {
        cs[0]
    } else {
        join_slash(cs.drop_last()) + seq!['/'] + cs.last()
    }
}

pub proof fn lemma_split_nonempty(s: Seq<char>, sep: char)
    ensures
        split_by(s, sep).len() >= 1,
    decreases s.len(),
{
    if s.len() > 0 {
        lemma_split_nonempty(s.drop_last(), sep);
    }
}

/// Text without `/` splits into itself alone.
pub proof fn lemma_split_plain(c: Seq<char>)
    requires
        no_slash(c),
    ensures
        split_slash(c) == seq![c],
    decreases c.len(),
{
    if c.len() > 0 {
        let p = c.drop_last();
        lemma_split_plain(p);
        assert(p.push(c.last()) =~= c);
        assert(seq![p].update(0, p.push(c.last())) =~= seq![c]);
    } else {
        assert(c =~= Seq::<char>::empty());
    }
}

/// Appending `/` and a plain piece adds that piece as a last component.
pub proof fn lemma_split_append(x: Seq<char>, c: Seq<char>)
    requires
        no_slash(c),
    ensures
        split_slash(x + seq!['/'] + c) == split_slash(x).push(c),
    decreases c.len(),
{
    let s = x + seq!['/'] + c;
    lemma_split_nonempty(x, '/');
    if c.len() == 0 {
        assert(s.drop_last() =~= x);
        assert(c =~= Seq::<char>::empty());
    } else {
        let p = c.drop_last();
        lemma_split_append(x, p);
        assert(s.drop_last() =~= x + seq!['/'] + p);
        assert(p.push(c.last()) =~= c);
        let r = split_slash(x).push(p);
        assert(r.update(r.len() - 1, p.push(c.last())) =~= split_slash(x).push(c));
    }
}

/// Joining components and splitting the text gives the components back.
pub proof fn lemma_split_join(cs: Seq<Seq<char>>)
    requires
        cs.len() >= 1,
        forall|i: int| 0 <= i < cs.len() ==> no_slash(#[trigger] cs[i]),
    ensures
        split_slash(join_slash(cs)) == cs,
    decreases cs.len(),
{
    if cs.len() == 1 {
        lemma_split_plain(cs[0]);
        assert(seq![cs[0]] =~= cs);
    } else {
        let init = cs.drop_last();
        assert forall|i: int| 0 <= i < init.len() implies no_slash(#[trigger] init[i]) by {
            assert(init[i] == cs[i]);
        }
        lemma_split_join(init);
        assert(no_slash(cs[cs.len() - 1]));
        lemma_split_append(join_slash(init), cs.last());
        assert(init.push(cs.last()) =~= cs);
    }
}

/// Splits `s` at every `/`.
pub fn split_text(s: &str) -> (r: Vec<String>)
    ensures
        texts(r@) == split_slash(s@),
{
    split_at_char(s, '/')
}

/// Splits `s` at every `sep`.
pub fn split_at_char(s: &str, sep: char) -> (r: Vec<String>)
    ensures
        texts(r@) == split_by(s@, sep),
{
    let n = s.unicode_len();
    let mut out: Vec<String> = Vec::new();
    let mut start: usize = 0;
    let mut i: usize = 0;
    assert(s@.subrange(0, 0) =~= Seq::<char>::empty());
    assert(split_by(Seq::<char>::empty(), sep) == seq![Seq::<char>::empty()]);
    assert(texts(out@).push(s@.subrange(0, 0)) =~= split_by(s@.subrange(0, 0), sep));
    while i < n
        invariant
            n == s@.len(),
            start <= i <= n,
            texts(out@).push(s@.subrange(start as int, i as int)) == split_by(
                s@.subrange(0, i as int),
                sep,
            ),
        decreases n - i,
    {
        let ch = s.get_char(i);
        let ghost pre = s@.subrange(0, i as int);
        let ghost cur = s@.subrange(0, i as int + 1);
        assert(cur.drop_last() =~= pre);
        assert(cur.last() == ch);
        proof {
            lemma_split_nonempty(pre, sep);
        }
        if ch == sep {
            let piece = s.substring_char(start, i);
            let owned = piece.to_owned();
            let ghost old_out = out@;
            out.push(owned);
            assert(texts(out@) =~= texts(old_out).push(piece@));
            assert(s@.subrange((i + 1) as int, (i + 1) as int) =~= Seq::<char>::empty());
            start = i + 1;
        } else {
            assert(s@.subrange(start as int, i as int).push(ch) =~= s@.subrange(
                start as int,
                i as int + 1,
            ));
            let ghost t = texts(out@).push(s@.subrange(start as int, i as int));
            assert(t.update(t.len() - 1, t.last().push(ch)) =~= texts(out@).push(
                s@.subrange(start as int, i as int + 1),
            ));
        }
        i += 1;
    }
    let piece = s.substring_char(start, n);
    let owned = piece.to_owned();
    let ghost old_out = out@;
    out.push(owned);
    assert(texts(out@) =~= texts(old_out).push(piece@));
    assert(s@.subrange(0, n as int) =~= s@);
    out
}

/// Joins the components with `/`.
pub fn join_text(cs: &Vec<String>) -> (r: String)
    ensures
        r@ == join_slash(texts(cs@)),
{
    if cs.len() == 0 {
        return String::new();
    }
    let mut out = cs[0].clone();
    let mut i: usize = 1;
    while i < cs.len()
        invariant
            1 <= i <= cs@.len(),
            out@ == join_slash(texts(cs@).subrange(0, i as int)),
        decreases cs@.len() - i,
    {
        let ghost before = texts(cs@).subrange(0, i as int);
        let ghost after = texts(cs@).subrange(0, i as int + 1);
        assert(after.drop_last() =~= before);
        out.append("/");
        out.append(cs[i].as_str());
        proof {
            reveal_strlit("/");
        }
        assert(out@ =~= join_slash(before) + seq!['/'] + cs@[i as int]@);
        i += 1;
    }
    assert(texts(cs@).subrange(0, cs@.len() as int) =~= texts(cs@));
    out
}

/// Copies a vector of strings.
pub fn copy_texts(v: &Vec<String>) -> (r: Vec<String>)
    ensures
        texts(r@) == texts(v@),
{
    let mut out: Vec<String> = Vec::new();
    let mut i: usize = 0;
    while i < v.len()
        invariant
            i <= v@.len(),
            texts(out@) == texts(v@).subrange(0, i as int),
        decreases v@.len() - i,
    {
        let c = v[i].clone();
        let ghost old_out = out@;
        out.push(c);
        assert(texts(out@) =~= texts(old_out).push(c@));
        assert(texts(out@) =~= texts(v@).subrange(0, i as int + 1));
        i += 1;
    }
    assert(texts(v@).subrange(0, v@.len() as int) =~= texts(v@));
    out
}

/// Whether `s` is a path component.
pub fn check_component(s: &str) -> (r: bool)
    ensures
        r == is_component(s@),
{
    let n = s.unicode_len();
    let mut i: usize = 0;
    while i < n
        invariant
            n == s@.len(),
            i <= n,
            forall|j: int| 0 <= j < i ==> s@[j] != '/',
        decreases n - i,
    {
        if s.get_char(i) == '/' {
            return false;
        }
        i += 1;
    }
    n > 0
}

} // verus!
