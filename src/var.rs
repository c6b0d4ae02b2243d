//! `KEY=VALUE` overrides given on the command line: parsing, conflict
//! detection within a batch, and the parameter tree that a batch builds.
use vstd::prelude::*;

use crate::scalar::is_float_text;
use crate::template::{insert_path, merge_result, DataView, MergeDeep, TemplateData, TemplateDataMap};
use crate::text::{lemma_split_nonempty, push_char, split, split_on, views};

verus! {

/// How the option that carried an override was written.
#[derive(Debug, Clone)]
pub enum ArgName {
    Unknown,
    Short(char),
    Long(String),
}

/// Why an override argument is malformed.
#[derive(Debug, Clone, Copy, PartialEq, Eq, Structural)]
pub enum VarArgError {
    /// The argument is empty.
    Empty,
    /// The argument has no `=`.
    NoEquals,
    /// Nothing stands before the `=`.
    EmptyKey,
    /// Nothing stands after the `=`.
    EmptyValue,
    /// The argument has more than one `=`.
    TooManyEquals,
    /// The key begins with `.`.
    KeyLeadingSeparator,
    /// The key ends with `.`.
    KeyTrailingSeparator,
    /// Two `.` in the key stand next to each other.
    KeyRepeatedSeparator,
}

/// A parsed override: the path of the key and the raw value.
#[derive(Debug)]
pub struct VarArg {
    name: ArgName,
    lhs: Vec<String>,
    rhs: String,
}

/// Two overrides of one batch whose paths overlap: `arg` comes after `prior`.
#[derive(Debug, Clone, Copy, PartialEq, Eq, Structural)]
pub struct VarConflict {
    pub arg: usize,
    pub prior: usize,
}

/// Position of the first empty segment.
pub open spec fn first_empty(segs: Seq<Seq<char>>) -> Option<int>
    decreases segs.len(),
{
    if segs.len() == 0 {
        None
    } else if segs[0].len() == 0 {
        Some(0)
    } else {
        match first_empty(segs.drop_first()) {
            Some(i) => Some(i + 1),
            None => None,
        }
    }
}

/// What an override argument means: its key path and value, or the first
/// problem with it.
pub open spec fn parse_var(s: Seq<char>) -> Result<(Seq<Seq<char>>, Seq<char>), VarArgError> {
    let parts = split(s, '=');
    if parts.len() == 1 {
        if parts[0].len() == 0 {
            Err(VarArgError::Empty)
        } else {
            Err(VarArgError::NoEquals)
        }
    } else if parts.len() > 2 {
        Err(VarArgError::TooManyEquals)
    } else if parts[0].len() == 0 {
        Err(VarArgError::EmptyKey)
    } else if parts[1].len() == 0 {
        Err(VarArgError::EmptyValue)
    } else {
        let segs = split(parts[0], '.');
        match first_empty(segs) {
            Some(i) => if i == 0 {
                Err(VarArgError::KeyLeadingSeparator)
            } else if i == segs.len() - 1 {
                Err(VarArgError::KeyTrailingSeparator)
            } else {
                Err(VarArgError::KeyRepeatedSeparator)
            },
            None => Ok((segs, parts[1])),
        }
    }
}

/// `a` is a prefix of `b`, or equal to it.
pub open spec fn is_prefix_of(a: Seq<Seq<char>>, b: Seq<Seq<char>>) -> bool {
    a.len() <= b.len() && b.subrange(0, a.len() as int) == a
}

/// Setting both paths would make one override the other.
pub open spec fn overlapping(a: Seq<Seq<char>>, b: Seq<Seq<char>>) -> bool {
    is_prefix_of(a, b) || is_prefix_of(b, a)
}

pub open spec fn paths(vars: Seq<VarArg>) -> Seq<Seq<Seq<char>>> {
    vars.map_values(|v: VarArg| v.spec_lhs())
}

pub open spec fn conflict_free(ps: Seq<Seq<Seq<char>>>) -> bool {
    forall|i: int, j: int| 0 <= i < j < ps.len() ==> !overlapping(ps[i], ps[j])
}

/// `c` is the first conflict: the earliest override that overlaps an
/// earlier one, with the earliest such earlier one.
pub open spec fn is_first_conflict(ps: Seq<Seq<Seq<char>>>, c: VarConflict) -> bool {
    &&& c.prior < c.arg < ps.len()
    &&& overlapping(ps[c.prior as int], ps[c.arg as int])
    &&& forall|i: int, j: int| 0 <= i < j < c.arg ==> !overlapping(ps[i], ps[j])
    &&& forall|i: int| 0 <= i < c.prior ==> !overlapping(ps[i], ps[c.arg as int])
}

/// The leaf that a raw value becomes.
pub open spec fn leaf_of(rhs: Seq<char>) -> DataView {
    if is_float_text(rhs) {
        DataView::Float(rhs)
    } else {
        DataView::Enum(rhs)
    }
}

/// The tree that a batch of overrides builds, each one set in turn.
pub open spec fn vars_tree(vs: Seq<VarArg>) -> Map<Seq<char>, DataView>
    decreases vs.len(),
{
    if vs.len() == 0 {
        Map::empty()
    } else {
        insert_path(vars_tree(vs.drop_last()), vs.last().spec_lhs(), leaf_of(vs.last().spec_rhs()))
    }
}

/// `segs` joined with `.` between them.
pub open spec fn join_dotted(segs: Seq<Seq<char>>) -> Seq<char>
    decreases segs.len(),
{
    if segs.len() == 0 {
        Seq::empty()
    } else if segs.len() == 1 {
        segs[0]
    } else {
        join_dotted(segs.drop_last()) + seq!['.'] + segs.last()
    }
}

pub open spec fn name_text(name: ArgName) -> Seq<char> {
    match name {
        ArgName::Unknown => seq!['-', '-', '<', 'u', 'n', 'k', 'n', 'o', 'w', 'n', '>'],
        ArgName::Short(c) => seq!['-', c],
        ArgName::Long(s) => seq!['-', '-'] + s@,
    }
}

impl VarArg {
    #[verifier::type_invariant]
    spec fn inv(self) -> bool {
        self.lhs@.len() >= 1
    }

    pub closed spec fn spec_lhs(self) -> Seq<Seq<char>> {
        views(self.lhs@)
    }

    pub closed spec fn spec_rhs(self) -> Seq<char> {
        self.rhs@
    }

    pub closed spec fn spec_name(self) -> ArgName {
        self.name
    }

    /// The segments of the key.
    pub fn lhs(&self) -> (r: &Vec<String>)
        ensures
            views(r@) == self.spec_lhs(),
    {
        &self.lhs
    }

    /// The raw value.
    pub fn rhs(&self) -> (r: &String)
        ensures
            r@ == self.spec_rhs(),
    {
        &self.rhs
    }

    /// The option as written, such as `--var`.
    pub fn display_name(&self) -> (r: String)
        ensures
            r@ == name_text(self.spec_name()),
    {
        let mut r = String::new();
        push_char(&mut r, '-');
        match &self.name {
            ArgName::Unknown => {
                push_char(&mut r, '-');
                push_char(&mut r, '<');
                push_char(&mut r, 'u');
                push_char(&mut r, 'n');
                push_char(&mut r, 'k');
                push_char(&mut r, 'n');
                push_char(&mut r, 'o');
                push_char(&mut r, 'w');
                push_char(&mut r, 'n');
                push_char(&mut r, '>');
                assert(r@ =~= name_text(self.spec_name()));
            },
            ArgName::Short(c) => {
                push_char(&mut r, *c);
                assert(r@ =~= name_text(self.spec_name()));
            },
            ArgName::Long(s) => {
                push_char(&mut r, '-');
                r.append(s.as_str());
                assert(r@ =~= name_text(self.spec_name()));
            },
        }
        r
    }

    /// The argument as written: the key, `=`, the value.
    pub fn display_value(&self) -> (r: String)
        ensures
            r@ == join_dotted(self.spec_lhs()) + seq!['='] + self.spec_rhs(),
    {
        let mut r = String::new();
        let mut i: usize = 0;
        let ghost segs = self.spec_lhs();
        while i < self.lhs.len()
            invariant
                segs == views(self.lhs@),
                i <= self.lhs@.len(),
                r@ == join_dotted(segs.subrange(0, i as int)),
            decreases self.lhs@.len() - i,
        {
            assert(segs.subrange(0, i + 1).drop_last() =~= segs.subrange(0, i as int));
            if i > 0 {
                push_char(&mut r, '.');
            } else {
                assert(r@ =~= Seq::<char>::empty());
            }
            r.append(self.lhs[i].as_str());
            assert(r@ =~= join_dotted(segs.subrange(0, i + 1)));
            i += 1;
        }
        assert(segs.subrange(0, self.lhs@.len() as int) =~= segs);
        push_char(&mut r, '=');
        r.append(self.rhs.as_str());
        r
    }

    /// The option and the argument, as in `--var key=value`.
    pub fn display(&self) -> (r: String)
        ensures
            r@ == name_text(self.spec_name()) + seq![' '] + join_dotted(self.spec_lhs()) + seq!['=']
                + self.spec_rhs(),
    {
        let mut r = self.display_name();
        push_char(&mut r, ' ');
        let v = self.display_value();
        r.append(v.as_str());
        assert(r@ =~= name_text(self.spec_name()) + seq![' '] + join_dotted(self.spec_lhs())
            + seq!['='] + self.spec_rhs());
        r
    }
}

impl Clone for VarArg {
    fn clone(&self) -> (r: VarArg)
        ensures
            r.spec_lhs() == self.spec_lhs(),
            r.spec_rhs() == self.spec_rhs(),
    {
        proof {
            use_type_invariant(self);
        }
        let lhs = self.lhs.clone();
        assert(views(lhs@) =~= views(self.lhs@)) by {
            assert forall|k: int| 0 <= k < lhs@.len() implies lhs@[k]@ == self.lhs@[k]@ by {
                assert(vstd::pervasive::cloned::<String>(self.lhs@[k], lhs@[k]));
            }
        }
        VarArg { name: self.name.clone(), lhs, rhs: self.rhs.clone() }
    }
}

/// Parser of override arguments.
#[derive(Debug, Clone, Copy)]
pub struct VarArgParser;

impl VarArgParser {
    /// Parses `value`, an argument of the option `name`.
    pub fn parse(&self, value: &str, name: ArgName) -> (r: Result<VarArg, VarArgError>)
        ensures
            match (r, parse_var(value@)) {
                (Ok(v), Ok((segs, rhs))) => v.spec_lhs() == segs && v.spec_rhs() == rhs
                    && v.spec_name() == name,
                (Err(e), Err(f)) => e == f,
                _ => false,
            },
    {
        let parts = split_on(value, '=');
        proof {
            lemma_split_nonempty(value@, '=');
        }
        assert(views(parts@)[0] == parts@[0]@);
        assert(parts@.len() > 1 ==> views(parts@)[1] == parts@[1]@);
        if parts.len() == 1 {
            if parts[0].as_str().unicode_len() == 0 {
                return Err(VarArgError::Empty);
            } else {
                return Err(VarArgError::NoEquals);
            }
        } else if parts.len() > 2 {
            return Err(VarArgError::TooManyEquals);
        } else if parts[0].as_str().unicode_len() == 0 {
            return Err(VarArgError::EmptyKey);
        } else if parts[1].as_str().unicode_len() == 0 {
            return Err(VarArgError::EmptyValue);
        }
        let segs = split_on(parts[0].as_str(), '.');
        let ghost sv = views(segs@);
        assert(split(value@, '=').len() == 2);
        assert(split(value@, '=')[0] == parts@[0]@);
        assert(sv == split(split(value@, '=')[0], '.'));
        proof {
            lemma_split_nonempty(parts@[0]@, '.');
        }
        let n = segs.len();
        let mut i: usize = 0;
        assert(sv.subrange(0, n as int) =~= sv);
        while i < n
            invariant
                sv == views(segs@),
                split(value@, '=').len() == 2,
                split(value@, '=')[0].len() > 0,
                split(value@, '=')[1].len() > 0,
                sv == split(split(value@, '=')[0], '.'),
                n == sv.len(),
                n >= 1,
                i <= n,
                first_empty(sv) == (match first_empty(sv.subrange(i as int, n as int)) {
                    Some(j) => Some(j + i),
                    None => None,
                }),
            decreases n - i,
        {
            assert(sv.subrange(i as int, n as int).drop_first() =~= sv.subrange(i + 1, n as int));
            assert(sv[i as int] == segs@[i as int]@);
            if segs[i].as_str().unicode_len() == 0 {
                assert(sv.subrange(i as int, n as int)[0] == sv[i as int]);
                assert(first_empty(sv) == Some(i as int));
                if i == 0 {
                    return Err(VarArgError::KeyLeadingSeparator);
                } else if i == n - 1 {
                    return Err(VarArgError::KeyTrailingSeparator);
                } else {
                    return Err(VarArgError::KeyRepeatedSeparator);
                }
            }
            i += 1;
        }
        let rhs = parts[1].clone();
        assert(first_empty(sv.subrange(n as int, n as int)) is None);
        Ok(VarArg { name, lhs: segs, rhs })
    }
}

/// Whether `a` is a prefix of `b`, or equal to it.
fn path_is_prefix(a: &Vec<String>, b: &Vec<String>) -> (r: bool)
    ensures
        r == is_prefix_of(views(a@), views(b@)),
{
    if a.len() > b.len() {
        return false;
    }
    let mut i: usize = 0;
    while i < a.len()
        invariant
            a@.len() <= b@.len(),
            i <= a@.len(),
            forall|j: int| 0 <= j < i ==> a@[j]@ == b@[j]@,
        decreases a@.len() - i,
    {
        if a[i] != b[i] {
            assert(views(b@).subrange(0, a@.len() as int)[i as int] != views(a@)[i as int]);
            return false;
        }
        i += 1;
    }
    assert(views(b@).subrange(0, a@.len() as int) =~= views(a@));
    true
}

/// Checks that no two overrides of the batch overlap; reports the first
/// conflict otherwise.
pub fn check_no_conflicts(vars: &[VarArg]) -> (r: Result<(), VarConflict>)
    ensures
        match r {
            Ok(()) => conflict_free(paths(vars@)),
            Err(c) => is_first_conflict(paths(vars@), c),
        },
{
    let ghost ps = paths(vars@);
    let mut j: usize = 0;
    while j < vars.len()
        invariant
            ps == paths(vars@),
            j <= vars@.len(),
            forall|a: int, b: int| 0 <= a < b < j ==> !overlapping(ps[a], ps[b]),
        decreases vars@.len() - j,
    {
        let mut i: usize = 0;
        while i < j
            invariant
                ps == paths(vars@),
                j < vars@.len(),
                i <= j,
                forall|a: int, b: int| 0 <= a < b < j ==> !overlapping(ps[a], ps[b]),
                forall|a: int| 0 <= a < i ==> !overlapping(ps[a], ps[j as int]),
            decreases j - i,
        {
            assert(ps[i as int] == views(vars@[i as int].lhs@));
            assert(ps[j as int] == views(vars@[j as int].lhs@));
            if path_is_prefix(&vars[i].lhs, &vars[j].lhs) || path_is_prefix(&vars[j].lhs, &vars[i].lhs) {
                return Err(VarConflict { arg: j, prior: i });
            }
            i += 1;
        }
        j += 1;
    }
    Ok(())
}

/// The parameter tree of a batch of overrides, each value classified as a
/// number or a symbol; a batch with overlapping paths is refused.
pub fn merge_into_data(vars: &Vec<VarArg>) -> (r: Result<TemplateDataMap, VarConflict>)
    ensures
        match r {
            Ok(m) => conflict_free(paths(vars@)) && m.wf() && m@ == vars_tree(vars@),
            Err(c) => is_first_conflict(paths(vars@), c),
        },
{
    match check_no_conflicts(vars.as_slice()) {
        Err(c) => {
            return Err(c);
        },
        Ok(()) => {},
    }
    let mut map = TemplateDataMap::new();
    let mut i: usize = 0;
    while i < vars.len()
        invariant
            i <= vars@.len(),
            map.wf(),
            map@ == vars_tree(vars@.subrange(0, i as int)),
        decreases vars@.len() - i,
    {
        let var = &vars[i];
        proof {
            use_type_invariant(var);
        }
        let leaf = TemplateData::from_cli_arg(var.rhs.as_str()).unwrap();
        let branch = TemplateDataMap::single_branch(&var.lhs, leaf);
        let ghost before = map;
        map.merge_deep_force(branch);
        proof {
            crate::template::lemma_merge_branch(before@, branch, var.spec_lhs(), leaf_of(var.spec_rhs()));
            assert(vars@.subrange(0, i + 1).drop_last() =~= vars@.subrange(0, i as int));
        }
        i += 1;
    }
    assert(vars@.subrange(0, vars@.len() as int) =~= vars@);
    Ok(map)
}

/// Whether two overrides conflict does not depend on their order.
pub proof fn lemma_conflict_symmetric(a: Seq<Seq<char>>, b: Seq<Seq<char>>)
    ensures
        conflict_free(seq![a, b]) == conflict_free(seq![b, a]),
        conflict_free(seq![a, b]) == !overlapping(a, b),
{
    lemma_pair_conflict_free(a, b);
    lemma_pair_conflict_free(b, a);
}

proof fn lemma_pair_conflict_free(a: Seq<Seq<char>>, b: Seq<Seq<char>>)
    ensures
        conflict_free(seq![a, b]) == !overlapping(a, b),
{
    let ps = seq![a, b];
    assert(ps[0] == a && ps[1] == b);
    if !overlapping(a, b) {
        assert forall|i: int, j: int| 0 <= i < j < ps.len() implies !overlapping(ps[i], ps[j]) by {
            assert(i == 0 && j == 1);
        }
    }
}

} // verus!
