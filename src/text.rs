//! Character-level helpers on strings: comparison and splitting.
use vstd::prelude::*;

verus! {

/// `a` and `b` hold the same characters.
pub fn str_eq(a: &str, b: &str) -> (r: bool)
    ensures
        r == (a@ == b@),
{
    let n = a.unicode_len();
    if n != b.unicode_len() {
        return false;
    }
    let mut i: usize = 0;
    while i < n
        invariant
            n == a@.len(),
            n == b@.len(),
            i <= n,
            a@.subrange(0, i as int) == b@.subrange(0, i as int),
        decreases n - i,
    {
        if a.get_char(i) != b.get_char(i) {
            assert(a@[i as int] != b@[i as int]);
            return false;
        }
        assert(a@.subrange(0, i + 1) =~= a@.subrange(0, i as int).push(a@[i as int]));
        assert(b@.subrange(0, i + 1) =~= b@.subrange(0, i as int).push(b@[i as int]));
        i += 1;
    }
    assert(a@ =~= a@.subrange(0, n as int));
    assert(b@ =~= b@.subrange(0, n as int));
    true
}

/// Relies on `String::push`: appends one character.
#[verifier::external_body]
pub fn push_char(s: &mut String, c: char)
    ensures
        final(s)@ == old(s)@.push(c),
{
    s.push(c)
}

/// The pieces of `s` between occurrences of `sep`; there is always at least
/// one piece.
pub open spec fn split(s: Seq<char>, sep: char) -> Seq<Seq<char>>
    decreases s.len(),
{
    if s.len() == 0 {
        seq![Seq::empty()]
    } else {
        let r = split(s.drop_last(), sep);
        if s.last() == sep {
            r.push(Seq::empty())
        } else {
            r.update(r.len() - 1, r.last().push(s.last()))
        }
    }
}

pub proof fn lemma_split_nonempty(s: Seq<char>, sep: char)
    ensures
        split(s, sep).len() >= 1,
    decreases s.len(),
{
    if s.len() > 0 {
        lemma_split_nonempty(s.drop_last(), sep);
    }
}

/// The views of a list of strings.
pub open spec fn views(v: Seq<String>) -> Seq<Seq<char>> {
    v.map_values(|x: String| x@)
}

/// `s` cut at every `sep`.
pub fn split_on(s: &str, sep: char) -> (r: Vec<String>)
    ensures
        views(r@) == split(s@, sep),
{
    let n = s.unicode_len();
    let mut parts: Vec<String> = Vec::new();
    let mut start: usize = 0;
    let mut i: usize = 0;
    assert(s@.subrange(0, 0) =~= Seq::<char>::empty());
    assert(views(parts@).push(s@.subrange(0, 0)) =~= seq![Seq::<char>::empty()]);
    while i < n
        invariant
            n == s@.len(),
            start <= i <= n,
            split(s@.subrange(0, i as int), sep) == views(parts@).push(
                s@.subrange(start as int, i as int),
            ),
        decreases n - i,
    {
        let c = s.get_char(i);
        proof {
            lemma_split_nonempty(s@.subrange(0, i as int), sep);
        }
        assert(s@.subrange(0, i + 1).drop_last() =~= s@.subrange(0, i as int));
        if c == sep {
            let piece = s.substring_char(start, i).to_owned();
            parts.push(piece);
            assert(views(parts@) =~= views(parts@.drop_last()).push(piece@));
            assert(s@.subrange((i + 1) as int, (i + 1) as int) =~= Seq::<char>::empty());
            start = i + 1;
        } else {
            assert(s@.subrange(start as int, i + 1) =~= s@.subrange(start as int, i as int).push(c));
        }
        i += 1;
    }
    let last = s.substring_char(start, n).to_owned();
    let ghost before = parts@;
    parts.push(last);
    assert(views(parts@) =~= views(before).push(last@));
    assert(s@.subrange(0, n as int) =~= s@);
    parts
}

} // verus!
