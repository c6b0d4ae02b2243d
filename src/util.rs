//! Splitting file names at dots: the prefix that names a shader, and the
//! stem and extension that tell a template from a plain shader.
use vstd::prelude::*;

use crate::text::str_eq;

verus! {

/// Position of the first `.` at or after position 1, or -1.
pub open spec fn first_dot_after_start(s: Seq<char>) -> int
    decreases s.len(),
{
    if s.len() <= 1 {
        -1
    } else if s.last() == '.' && first_dot_after_start(s.drop_last()) < 0 {
        s.len() - 1
    } else {
        first_dot_after_start(s.drop_last())
    }
}

/// Position of the last `.`, or -1.
pub open spec fn last_dot(s: Seq<char>) -> int
    decreases s.len(),
{
    if s.len() == 0 {
        -1
    } else if s.last() == '.' {
        s.len() - 1
    } else {
        last_dot(s.drop_last())
    }
}

pub open spec fn is_dot_dot(s: Seq<char>) -> bool {
    s == seq!['.', '.']
}

/// A file name cut at its first dot that is not its first character.
pub open spec fn spec_split_file_at_dot(s: Seq<char>) -> (Seq<char>, Option<Seq<char>>) {
    let i = first_dot_after_start(s);
    if is_dot_dot(s) || i < 0 {
        (s, None)
    } else {
        (s.take(i), Some(s.skip(i + 1)))
    }
}

/// A file name cut at its last dot into stem and extension; a name without
/// a dot is all extension, and a name whose only dot leads is all stem.
pub open spec fn spec_rsplit_file_at_dot(s: Seq<char>) -> (Option<Seq<char>>, Option<Seq<char>>) {
    let i = last_dot(s);
    if is_dot_dot(s) || i == 0 {
        (Some(s), None)
    } else if i < 0 {
        (None, Some(s))
    } else {
        (Some(s.take(i)), Some(s.skip(i + 1)))
    }
}

fn piece(s: &str, from: usize, to: usize) -> (r: String)
    requires
        from <= to <= s@.len(),
    ensures
        r@ == s@.subrange(from as int, to as int),
{
    s.substring_char(from, to).to_owned()
}

fn dot_dot(s: &str) -> (r: bool)
    ensures
        r == is_dot_dot(s@),
{
    let r = s.unicode_len() == 2 && s.get_char(0) == '.' && s.get_char(1) == '.';
    assert(r ==> s@ =~= seq!['.', '.']);
    r
}

/// The file name cut at its first dot past the first character: the part
/// before it, and the part after it if there is such a dot.
pub fn split_file_at_dot(file: &str) -> (r: (String, Option<String>))
    ensures
        r.0@ == spec_split_file_at_dot(file@).0,
        match (r.1, spec_split_file_at_dot(file@).1) {
            (Some(a), Some(b)) => a@ == b,
            (None, None) => true,
            _ => false,
        },
{
    let n = file.unicode_len();
    if dot_dot(file) {
        return (file.to_owned(), None);
    }
    let mut i: usize = 1;
    if n <= 1 {
        assert(first_dot_after_start(file@) == -1);
        return (file.to_owned(), None);
    }
    while i < n && file.get_char(i) != '.'
        invariant
            n == file@.len(),
            1 <= i <= n,
            forall|k: int| 1 <= k < i ==> file@[k] != '.',
        decreases n - i,
    {
        i += 1;
    }
    proof {
        lemma_first_dot(file@, i as int);
    }
    if i == n {
        (file.to_owned(), None)
    } else {
        (piece(file, 0, i), Some(piece(file, i + 1, n)))
    }
}

proof fn lemma_first_dot(s: Seq<char>, i: int)
    requires
        s.len() >= 2,
        1 <= i <= s.len(),
        forall|k: int| 1 <= k < i ==> s[k] != '.',
        i < s.len() ==> s[i] == '.',
    ensures
        first_dot_after_start(s) == if i == s.len() {
            -1
        } else {
            i
        },
    decreases s.len(),
{
    let d = s.drop_last();
    assert forall|k: int| 0 <= k < d.len() implies d[k] == s[k] by {}
    assert(s.last() == s[s.len() - 1]);
    if d.len() >= 2 && i < s.len() - 1 {
        lemma_first_dot(d, i);
        assert(first_dot_after_start(d) == i);
    } else if d.len() >= 2 {
        lemma_first_dot(d, d.len() as int);
        assert(first_dot_after_start(d) == -1);
    } else {
        assert(first_dot_after_start(d) == -1);
    }
}

/// The file name cut at its last dot into stem and extension.
pub fn rsplit_file_at_dot(file: &str) -> (r: (Option<String>, Option<String>))
    ensures
        match (r.0, spec_rsplit_file_at_dot(file@).0) {
            (Some(a), Some(b)) => a@ == b,
            (None, None) => true,
            _ => false,
        },
        match (r.1, spec_rsplit_file_at_dot(file@).1) {
            (Some(a), Some(b)) => a@ == b,
            (None, None) => true,
            _ => false,
        },
{
    let n = file.unicode_len();
    if dot_dot(file) {
        return (Some(file.to_owned()), None);
    }
    let mut i: usize = n;
    assert(file@.subrange(0, n as int) =~= file@);
    while i > 0 && file.get_char(i - 1) != '.'
        invariant
            n == file@.len(),
            i <= n,
            last_dot(file@) == last_dot(file@.subrange(0, i as int)),
        decreases i,
    {
        assert(file@.subrange(0, i as int).drop_last() =~= file@.subrange(0, i - 1));
        i -= 1;
    }
    if i == 0 {
        assert(last_dot(file@.subrange(0, 0)) == -1);
        (None, Some(file.to_owned()))
    } else {
        assert(last_dot(file@.subrange(0, i as int)) == i - 1);
        if i == 1 {
            (Some(file.to_owned()), None)
        } else {
            (Some(piece(file, 0, i - 1)), Some(piece(file, i, n)))
        }
    }
}

/// The part of a file name before its first dot past the first character:
/// the name by which a shader file is found.
pub fn file_prefix(file: &str) -> (r: String)
    ensures
        r@ == spec_split_file_at_dot(file@).0,
{
    split_file_at_dot(file).0
}

/// The stem of a template file name (one whose extension is `mustache`),
/// which names the rendered file; `None` for any other file name.
pub fn template_stem(file: &str) -> (r: Option<String>)
    ensures
        match r {
            Some(stem) => spec_rsplit_file_at_dot(file@) == (Some(stem@), Some("mustache"@)),
            None => !(spec_rsplit_file_at_dot(file@).0 is Some && spec_rsplit_file_at_dot(
                file@,
            ).1 == Some("mustache"@)),
        },
{
    match rsplit_file_at_dot(file) {
        (Some(stem), Some(ext)) => {
            if str_eq(ext.as_str(), "mustache") {
                Some(stem)
            } else {
                None
            }
        },
        _ => None,
    }
}

} // verus!
