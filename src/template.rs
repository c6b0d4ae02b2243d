//! Parameter trees handed to the template renderer, and their deep merge.
use vstd::prelude::*;

use crate::scalar::{ascii_upper, float_text, is_float_text, upper_char};
use crate::text::push_char;

verus! {

/// A parameter: a symbolic value, a number (kept as its decimal text), or a
/// nested tree.
#[derive(Debug)]
pub enum TemplateData {
    Enum(String),
    Float(String),
    Table(TemplateDataMap),
}

/// A tree of parameters: distinct keys, each with a parameter.
#[derive(Debug)]
pub struct TemplateDataMap {
    entries: Vec<(String, TemplateData)>,
}

/// What a parameter is, as a mathematical value.
pub enum DataView {
    Enum(Seq<char>),
    Float(Seq<char>),
    Table(Map<Seq<char>, DataView>),
}

impl TemplateData {
    pub closed spec fn view_data(self) -> DataView
        decreases self,
    {
        match self {
            TemplateData::Enum(s) => DataView::Enum(s@),
            TemplateData::Float(s) => DataView::Float(s@),
            TemplateData::Table(m) => DataView::Table(entries_view(m.entries@)),
        }
    }

    /// Every nested tree has distinct keys.
    pub closed spec fn wf(self) -> bool
        decreases self,
    {
        match self {
            TemplateData::Table(m) => entries_wf(m.entries@),
            _ => true,
        }
    }
}

fn position(entries: &Vec<(String, TemplateData)>, key: &String) -> (r: Option<usize>)
    requires
        entries_wf(entries@),
    ensures
        match r {
            Some(i) => i < entries@.len() && entries@[i as int].0@ == key@ && entries_view(
                entries@,
            ).dom().contains(key@),
            None => !entries_view(entries@).dom().contains(key@),
        },
{
    let mut i: usize = 0;
    while i < entries.len()
        invariant
            entries_wf(entries@),
            i <= entries@.len(),
            forall|j: int| 0 <= j < i ==> (#[trigger] entries@[j]).0@ != key@,
        decreases entries@.len() - i,
    {
        if entries[i].0 == *key {
            proof {
                lemma_entries_lookup(entries@, i as int);
            }
            return Some(i);
        }
        i += 1;
    }
    proof {
        lemma_entries_dom(entries@, key@);
    }
    None
}

/// A parameter satisfies its well-formedness: a nested tree always does.
fn data_is_wf(d: &TemplateData)
    ensures
        d.wf(),
{
    if let TemplateData::Table(m) = d {
        proof {
            use_type_invariant(m);
        }
    }
}

/// The tree that a list of pairs gives, a later pair winning over an earlier one
/// with the same key.
pub closed spec fn entries_view(e: Seq<(String, TemplateData)>) -> Map<Seq<char>, DataView>
    decreases e,
{
    if e.len() == 0 {
        Map::empty()
    } else {
        entries_view(e.drop_last()).insert(e.last().0@, e.last().1.view_data())
    }
}

/// The keys of the list are distinct, and so are those of every nested tree.
pub closed spec fn entries_wf(e: Seq<(String, TemplateData)>) -> bool
    decreases e,
{
    if e.len() == 0 {
        true
    } else {
        &&& entries_wf(e.drop_last())
        &&& !entries_view(e.drop_last()).dom().contains(e.last().0@)
        &&& e.last().1.wf()
    }
}

proof fn lemma_entries_lookup(e: Seq<(String, TemplateData)>, j: int)
    requires
        entries_wf(e),
        0 <= j < e.len(),
    ensures
        entries_view(e).dom().contains(e[j].0@),
        entries_view(e)[e[j].0@] == e[j].1.view_data(),
        e[j].1.wf(),
    decreases e.len(),
{
    if j < e.len() - 1 {
        assert(e.drop_last()[j] == e[j]);
        lemma_entries_lookup(e.drop_last(), j);
    }
}

proof fn lemma_entries_dom(e: Seq<(String, TemplateData)>, k: Seq<char>)
    ensures
        entries_view(e).dom().contains(k) ==> exists|j: int| 0 <= j < e.len() && (#[trigger] e[j]).0@ == k,
    decreases e.len(),
{
    if e.len() > 0 {
        lemma_entries_dom(e.drop_last(), k);
        if entries_view(e.drop_last()).dom().contains(k) {
            let j = choose|j: int| 0 <= j < e.drop_last().len() && (#[trigger] e.drop_last()[j]).0@ == k;
            assert(e[j] == e.drop_last()[j]);
        } else if entries_view(e).dom().contains(k) {
            assert(e[e.len() - 1].0@ == k);
        }
    }
}

proof fn lemma_entries_push(e: Seq<(String, TemplateData)>, x: (String, TemplateData))
    requires
        entries_wf(e),
        !entries_view(e).dom().contains(x.0@),
        x.1.wf(),
    ensures
        entries_wf(e.push(x)),
        entries_view(e.push(x)) == entries_view(e).insert(x.0@, x.1.view_data()),
{
    assert(e.push(x).drop_last() =~= e);
}

proof fn lemma_entries_update(e: Seq<(String, TemplateData)>, i: int, x: (String, TemplateData))
    requires
        entries_wf(e),
        0 <= i < e.len(),
        x.0@ == e[i].0@,
        x.1.wf(),
    ensures
        entries_wf(e.update(i, x)),
        entries_view(e.update(i, x)) == entries_view(e).insert(x.0@, x.1.view_data()),
    decreases e.len(),
{
    let u = e.update(i, x);
    if i == e.len() - 1 {
        assert(u.drop_last() =~= e.drop_last());
        assert(entries_view(u) =~= entries_view(e).insert(x.0@, x.1.view_data()));
    } else {
        assert(u.drop_last() =~= e.drop_last().update(i, x));
        assert(e.drop_last()[i] == e[i]);
        lemma_entries_update(e.drop_last(), i, x);
        lemma_entries_lookup(e.drop_last(), i);
        assert(u.last() == e.last());
        assert(entries_view(u) =~= entries_view(e).insert(x.0@, x.1.view_data()));
    }
}

impl View for TemplateDataMap {
    type V = Map<Seq<char>, DataView>;

    closed spec fn view(&self) -> Map<Seq<char>, DataView> {
        entries_view(self.entries@)
    }
}

impl TemplateDataMap {
    /// Keys are distinct, at every level.
    pub closed spec fn wf(self) -> bool {
        entries_wf(self.entries@)
    }

    #[verifier::type_invariant]
    spec fn inv(self) -> bool {
        entries_wf(self.entries@)
    }

    fn take_entries(&mut self) -> (r: Vec<(String, TemplateData)>)
        ensures
            r@ == old(self).entries@,
    {
        let mut e: Vec<(String, TemplateData)> = Vec::new();
        core::mem::swap(&mut e, &mut self.entries);
        e
    }

    /// The empty tree.
    pub fn new() -> (r: TemplateDataMap)
        ensures
            r.wf(),
            r@ == Map::<Seq<char>, DataView>::empty(),
    {
        TemplateDataMap { entries: Vec::new() }
    }

    /// Number of keys at the top level.
    pub fn len(&self) -> (r: usize)
        ensures
            r == self@.len(),
    {
        proof {
            use_type_invariant(self);
            lemma_entries_len(self.entries@);
        }
        self.entries.len()
    }

    /// The parameter under `key` at the top level.
    pub fn get(&self, key: &str) -> (r: Option<&TemplateData>)
        ensures
            r is Some <==> self@.dom().contains(key@),
            r matches Some(d) ==> d.view_data() == self@[key@] && d.wf(),
    {
        proof {
            use_type_invariant(self);
        }
        let mut i: usize = 0;
        while i < self.entries.len()
            invariant
                self.wf(),
                i <= self.entries@.len(),
                forall|j: int| 0 <= j < i ==> (#[trigger] self.entries@[j]).0@ != key@,
            decreases self.entries@.len() - i,
        {
            if crate::text::str_eq(self.entries[i].0.as_str(), key) {
                proof {
                    lemma_entries_lookup(self.entries@, i as int);
                }
                return Some(&self.entries[i].1);
            }
            i += 1;
        }
        proof {
            lemma_entries_dom(self.entries@, key@);
        }
        None
    }

    /// Sets `key` to `value`, replacing what was there.
    pub fn insert(&mut self, key: String, value: TemplateData)
        ensures
            final(self).wf(),
            final(self)@ == old(self)@.insert(key@, value.view_data()),
    {
        proof {
            use_type_invariant(&*self);
        }
        data_is_wf(&value);
        let mut entries = self.take_entries();
        match position(&entries, &key) {
            Some(i) => {
                proof {
                    lemma_entries_update(entries@, i as int, (key, value));
                }
                entries.set(i, (key, value));
            },
            None => {
                proof {
                    lemma_entries_push(entries@, (key, value));
                }
                entries.push((key, value));
            },
        }
        self.entries = entries;
    }

    /// The tree holding the given pairs; of two pairs with one key, the later
    /// one stays.
    pub fn from_entries(pairs: Vec<(String, TemplateData)>) -> (r: TemplateDataMap)
        ensures
            r.wf(),
            r@ == entries_view(pairs@),
    {
        let mut pairs = pairs;
        let ghost all = pairs@;
        let mut r = TemplateDataMap::new();
        while pairs.len() > 0
            invariant
                r.wf(),
                pairs@.len() <= all.len(),
                pairs@ == all.subrange(0, pairs@.len() as int),
                entries_view(all) == entries_view(pairs@).union_prefer_right(r@),
            decreases pairs@.len(),
        {
            let ghost before_pop = pairs@;
            let (k, v) = pairs.pop().unwrap();
            assert(before_pop.drop_last() =~= pairs@);
            assert(all[pairs@.len() as int] == (k, v));
            if r.get(k.as_str()).is_none() {
                r.insert(k, v);
            }
            assert(entries_view(all) =~= entries_view(pairs@).union_prefer_right(r@)) by {
                assert(entries_view(before_pop) == entries_view(pairs@).insert(
                    before_pop.last().0@,
                    before_pop.last().1.view_data(),
                ));
            }
        }
        assert(entries_view(pairs@) =~= Map::<Seq<char>, DataView>::empty());
        assert(entries_view(all) =~= r@);
        r
    }
}

proof fn lemma_entries_len(e: Seq<(String, TemplateData)>)
    requires
        entries_wf(e),
    ensures
        entries_view(e).dom().finite(),
        entries_view(e).len() == e.len(),
    decreases e.len(),
{
    if e.len() > 0 {
        lemma_entries_len(e.drop_last());
    }
}

/// `acc` with the pairs of `inc` merged in, the last pair first. A key that
/// only `inc` has is added; where both hold nested trees they merge in turn;
/// on any other collision the incoming value replaces the held one when
/// `force` is set, and is dropped otherwise.
pub closed spec fn merged(
    acc: Map<Seq<char>, DataView>,
    inc: Seq<(String, TemplateData)>,
    force: bool,
) -> Map<Seq<char>, DataView>
    decreases inc,
{
    if inc.len() == 0 {
        acc
    } else {
        merged(merge_entry(acc, inc.last().0@, inc.last().1, force), inc.drop_last(), force)
    }
}

/// `acc` with the single pair `k`, `v` merged in.
pub closed spec fn merge_entry(
    acc: Map<Seq<char>, DataView>,
    k: Seq<char>,
    v: TemplateData,
    force: bool,
) -> Map<Seq<char>, DataView>
    decreases v,
{
    if !acc.dom().contains(k) {
        acc.insert(k, v.view_data())
    } else {
        match (acc[k], v) {
            (DataView::Table(x), TemplateData::Table(m)) => acc.insert(
                k,
                DataView::Table(merged(x, m.entries@, force)),
            ),
            _ => if force {
                acc.insert(k, v.view_data())
            } else {
                acc
            },
        }
    }
}

/// The tree that merging `incoming` into `acc` gives.
pub open spec fn merge_result(acc: TemplateDataMap, incoming: TemplateDataMap, force: bool) -> Map<
    Seq<char>,
    DataView,
> {
    merged(acc@, incoming.spec_entries(), force)
}

impl TemplateDataMap {
    pub closed spec fn spec_entries(self) -> Seq<(String, TemplateData)> {
        self.entries@
    }

    /// The pairs of the top level, each key once.
    pub fn entries(&self) -> (r: &Vec<(String, TemplateData)>)
        ensures
            r@ == self.spec_entries(),
            entries_wf(r@),
            entries_view(r@) == self@,
    {
        proof {
            use_type_invariant(self);
        }
        &self.entries
    }

}

/// Deep merge of one tree into another, under a chosen precedence.
pub trait MergeDeep: Sized {
    /// `new` is what merging `incoming` into `acc` gives under `force`.
    spec fn merge_post(acc: &Self, incoming: &Self, force: bool, new: &Self) -> bool;

    /// Merges `other` into `self`: nested trees merge key by key; on a
    /// collision of any other kind `other` wins if `force` is set, and `self`
    /// keeps its value otherwise.
    fn merge_deep(&mut self, other: Self, force: bool)
        ensures
            Self::merge_post(&*old(self), &other, force, &*final(self)),
    ;

    /// Merges `other` in; `self` keeps its values on collisions.
    fn merge_deep_keep(&mut self, other: Self)
        ensures
            Self::merge_post(&*old(self), &other, false, &*final(self)),
    {
        self.merge_deep(other, false)
    }

    /// Merges `other` in; `other` wins on collisions.
    fn merge_deep_force(&mut self, other: Self)
        ensures
            Self::merge_post(&*old(self), &other, true, &*final(self)),
    {
        self.merge_deep(other, true)
    }
}

impl MergeDeep for TemplateDataMap {
    open spec fn merge_post(
        acc: &TemplateDataMap,
        incoming: &TemplateDataMap,
        force: bool,
        new: &TemplateDataMap,
    ) -> bool {
        new.wf() && new@ == merge_result(*acc, *incoming, force)
    }

    fn merge_deep(&mut self, other: TemplateDataMap, force: bool)
        decreases other,
    {
        proof {
            use_type_invariant(&*self);
            use_type_invariant(&other);
        }
        let ghost all = other.entries@;
        let ghost start = self@;
        let mut entries = self.take_entries();
        let mut inc = other.entries;
        while inc.len() > 0
            invariant
                entries_wf(entries@),
                entries_wf(inc@),
                inc@.len() <= all.len(),
                inc@ == all.subrange(0, inc@.len() as int),
                other.entries@ == all,
                merged(start, all, force) == merged(entries_view(entries@), inc@, force),
            decreases inc@.len(),
        {
            let ghost inc0 = inc@;
            let (k, v) = inc.pop().unwrap();
            assert(inc0.drop_last() =~= inc@);
            assert(all[inc@.len() as int] == (k, v));
            assert(inc0.last() == (k, v));
            let ghost j = inc@.len() as int;
            proof {
                lemma_entries_lookup(inc0, inc0.len() - 1);
            }
            let ghost acc = entries_view(entries@);
            let ghost vg = v;
            match position(&entries, &k) {
                None => {
                    proof {
                        lemma_entries_push(entries@, (k, v));
                    }
                    entries.push((k, v));
                    assert(entries_view(entries@) == merge_entry(acc, k@, vg, force));
                },
                Some(i) => {
                    proof {
                        lemma_entries_lookup(entries@, i as int);
                    }
                    let ghost e0 = entries@;
                    let (k0, cur) = entries.remove(i);
                    let ghost cg = cur;
                    assert(acc[k@] == cg.view_data());
                    let newv = match (cur, v) {
                        (TemplateData::Table(mut a), TemplateData::Table(b)) => {
                            proof {
                                broadcast use vstd::std_specs::vec::axiom_vec_index_decreases;

                                assert(0 <= j < other.entries.len());
                                assert(decreases_to!(other => other.entries));
                                assert(decreases_to!(other.entries => other.entries[j]));
                                assert(decreases_to!(all[j] => all[j].1));
                                assert(decreases_to!(all[j].1 => b));
                            }
                            a.merge_deep(b, force);
                            proof {
                                use_type_invariant(&a);
                            }
                            TemplateData::Table(a)
                        },
                        (cur, v) => if force {
                            v
                        } else {
                            cur
                        },
                    };
                    proof {
                        lemma_entries_update(e0, i as int, (k0, newv));
                    }
                    entries.insert(i, (k0, newv));
                    assert(entries@ =~= e0.update(i as int, (k0, newv)));
                    assert(entries_view(entries@) == merge_entry(acc, k@, vg, force));
                },
            }
        }
        assert(inc@ =~= Seq::<(String, TemplateData)>::empty());
        self.entries = entries;
    }
}

proof fn lemma_merged_disjoint(a: Map<Seq<char>, DataView>, e: Seq<(String, TemplateData)>, force: bool)
    requires
        entries_wf(e),
        forall|k: Seq<char>| a.dom().contains(k) ==> !entries_view(e).dom().contains(k),
    ensures
        merged(a, e, force) == a.union_prefer_right(entries_view(e)),
    decreases e.len(),
{
    if e.len() == 0 {
        assert(a.union_prefer_right(entries_view(e)) =~= a);
    } else {
        let kl = e.last().0@;
        let vl = e.last().1;
        let a1 = a.insert(kl, vl.view_data());
        assert(entries_view(e).dom().contains(kl));
        assert(merge_entry(a, kl, vl, force) == a1);
        assert forall|k: Seq<char>| a1.dom().contains(k) implies !entries_view(
            e.drop_last(),
        ).dom().contains(k) by {
            if k != kl {
                assert(entries_view(e).dom().contains(k) == entries_view(e.drop_last()).dom().contains(k));
            }
        }
        lemma_merged_disjoint(a1, e.drop_last(), force);
        assert(a1.union_prefer_right(entries_view(e.drop_last())) =~= a.union_prefer_right(
            entries_view(e),
        ));
    }
}

proof fn lemma_merged_keeps_leaf(a: Map<Seq<char>, DataView>, e: Seq<(String, TemplateData)>, k: Seq<char>)
    requires
        a.dom().contains(k),
        !(a[k] is Table),
    ensures
        merged(a, e, false).dom().contains(k),
        merged(a, e, false)[k] == a[k],
    decreases e.len(),
{
    if e.len() > 0 {
        let a1 = merge_entry(a, e.last().0@, e.last().1, false);
        assert(a1.dom().contains(k) && a1[k] == a[k]);
        lemma_merged_keeps_leaf(a1, e.drop_last(), k);
    }
}

proof fn lemma_merged_other_keys(
    a: Map<Seq<char>, DataView>,
    e: Seq<(String, TemplateData)>,
    k: Seq<char>,
    force: bool,
)
    requires
        forall|j: int| 0 <= j < e.len() ==> (#[trigger] e[j]).0@ != k,
    ensures
        merged(a, e, force).dom().contains(k) == a.dom().contains(k),
        a.dom().contains(k) ==> merged(a, e, force)[k] == a[k],
    decreases e.len(),
{
    if e.len() > 0 {
        let a1 = merge_entry(a, e.last().0@, e.last().1, force);
        assert(e.last() == e[e.len() - 1]);
        assert(a1.dom().contains(k) == a.dom().contains(k));
        assert(a.dom().contains(k) ==> a1[k] == a[k]);
        let d = e.drop_last();
        assert forall|j: int| 0 <= j < d.len() implies (#[trigger] d[j]).0@ != k by {
            assert(d[j] == e[j]);
        }
        lemma_merged_other_keys(a1, d, k, force);
    }
}

proof fn lemma_other_keys_of_wf(e: Seq<(String, TemplateData)>, j: int)
    requires
        entries_wf(e),
        0 <= j < e.len(),
    ensures
        forall|i: int| 0 <= i < e.len() && i != j ==> (#[trigger] e[i]).0@ != e[j].0@,
    decreases e.len(),
{
    let d = e.drop_last();
    if e.len() > 1 {
        if j < e.len() - 1 {
            lemma_other_keys_of_wf(d, j);
            lemma_entries_lookup(d, j);
            assert forall|i: int| 0 <= i < e.len() && i != j implies (#[trigger] e[i]).0@ != e[j].0@ by {
                if i < e.len() - 1 {
                    assert(d[i] == e[i]);
                } else {
                    assert(e.last() == e[i]);
                }
            }
        } else {
            assert forall|i: int| 0 <= i < e.len() && i != j implies (#[trigger] e[i]).0@ != e[j].0@ by {
                assert(d[i] == e[i]);
                lemma_entries_lookup(d, i);
            }
        }
    }
}

proof fn lemma_merged_sets_entry(
    acc: Map<Seq<char>, DataView>,
    e: Seq<(String, TemplateData)>,
    j: int,
    force: bool,
)
    requires
        entries_wf(e),
        0 <= j < e.len(),
        !acc.dom().contains(e[j].0@) || (force && !(e[j].1.view_data() is Table)),
    ensures
        merged(acc, e, force).dom().contains(e[j].0@),
        merged(acc, e, force)[e[j].0@] == e[j].1.view_data(),
    decreases e.len(),
{
    let k = e[j].0@;
    let d = e.drop_last();
    lemma_other_keys_of_wf(e, j);
    assert(e.last() == e[e.len() - 1]);
    if j == e.len() - 1 {
        let a1 = merge_entry(acc, k, e[j].1, force);
        if acc.dom().contains(k) {
            assert(!(e[j].1 is Table));
        }
        assert(a1 == acc.insert(k, e[j].1.view_data()));
        assert forall|i: int| 0 <= i < d.len() implies (#[trigger] d[i]).0@ != k by {
            assert(d[i] == e[i]);
        }
        lemma_merged_other_keys(a1, d, k, force);
    } else {
        let a1 = merge_entry(acc, e.last().0@, e.last().1, force);
        assert(e.last().0@ != k);
        assert(a1.dom().contains(k) == acc.dom().contains(k));
        assert(d[j] == e[j]);
        lemma_entries_wf_prefix(e);
        lemma_merged_sets_entry(a1, d, j, force);
    }
}

proof fn lemma_entries_wf_prefix(e: Seq<(String, TemplateData)>)
    requires
        entries_wf(e),
        e.len() > 0,
    ensures
        entries_wf(e.drop_last()),
{
}

/// Under the forcing policy a value of the incoming tree that is not a
/// nested tree always lands in the result.
pub proof fn lemma_force_incoming_leaf_wins(acc: TemplateDataMap, incoming: TemplateDataMap, k: Seq<char>)
    requires
        acc.wf(),
        incoming.wf(),
        incoming@.dom().contains(k),
        !(incoming@[k] is Table),
    ensures
        merge_result(acc, incoming, true).dom().contains(k),
        merge_result(acc, incoming, true)[k] == incoming@[k],
{
    let e = incoming.entries@;
    lemma_entries_dom(e, k);
    let j = choose|j: int| 0 <= j < e.len() && (#[trigger] e[j]).0@ == k;
    lemma_entries_lookup(e, j);
    lemma_merged_sets_entry(acc@, e, j, true);
}

/// Under either policy a key that the accumulator lacks takes the incoming
/// tree's value.
pub proof fn lemma_merge_fills_gaps(acc: TemplateDataMap, incoming: TemplateDataMap, k: Seq<char>, force: bool)
    requires
        acc.wf(),
        incoming.wf(),
        incoming@.dom().contains(k),
        !acc@.dom().contains(k),
    ensures
        merge_result(acc, incoming, force).dom().contains(k),
        merge_result(acc, incoming, force)[k] == incoming@[k],
{
    let e = incoming.entries@;
    lemma_entries_dom(e, k);
    let j = choose|j: int| 0 <= j < e.len() && (#[trigger] e[j]).0@ == k;
    lemma_entries_lookup(e, j);
    lemma_merged_sets_entry(acc@, e, j, force);
}

/// Merging an empty tree into a tree, under either policy, leaves it as it
/// was.
pub proof fn lemma_merge_empty_incoming(acc: TemplateDataMap, incoming: TemplateDataMap, force: bool)
    requires
        acc.wf(),
        incoming.wf(),
        incoming@ == Map::<Seq<char>, DataView>::empty(),
    ensures
        merge_result(acc, incoming, force) == acc@,
{
    if incoming.entries@.len() > 0 {
        lemma_entries_lookup(incoming.entries@, 0);
    }
}

/// Merging a tree into an empty tree, under either policy, gives that tree.
pub proof fn lemma_merge_into_empty(acc: TemplateDataMap, incoming: TemplateDataMap, force: bool)
    requires
        acc.wf(),
        incoming.wf(),
        acc@ == Map::<Seq<char>, DataView>::empty(),
    ensures
        merge_result(acc, incoming, force) == incoming@,
{
    lemma_merged_disjoint(acc@, incoming.entries@, force);
    assert(acc@.union_prefer_right(incoming@) =~= incoming@);
}

/// Under the keeping policy a value of the accumulator that is not a nested
/// tree is never overwritten.
pub proof fn lemma_keep_never_overwrites(acc: TemplateDataMap, incoming: TemplateDataMap, k: Seq<char>)
    requires
        acc.wf(),
        incoming.wf(),
        acc@.dom().contains(k),
        !(acc@[k] is Table),
    ensures
        merge_result(acc, incoming, false).dom().contains(k),
        merge_result(acc, incoming, false)[k] == acc@[k],
{
    lemma_merged_keeps_leaf(acc@, incoming.entries@, k);
}

/// Error of reading an override value; no value gives it, as every value
/// that is not a number is symbolic.
#[derive(Debug)]
pub struct TemplateDataCliParseError;

/// `s` without its `-` and `_` characters.
pub open spec fn strip_separators(s: Seq<char>) -> Seq<char>
    decreases s.len(),
{
    if s.len() == 0 {
        s
    } else if s.last() == '-' || s.last() == '_' {
        strip_separators(s.drop_last())
    } else {
        strip_separators(s.drop_last()).push(s.last())
    }
}

/// The form a symbolic value takes in a rendered template: ASCII upper case,
/// without `-` and `_`.
pub open spec fn canonical_symbol(s: Seq<char>) -> Seq<char> {
    strip_separators(s.map_values(|c: char| ascii_upper(c)))
}


impl TemplateData {
    /// A number if `value` is a floating-point literal, else a symbol.
    pub fn from_cli_arg(value: &str) -> (r: Result<TemplateData, TemplateDataCliParseError>)
        ensures
            r matches Ok(d) && d.wf() && d.view_data() == if is_float_text(value@) {
                DataView::Float(value@)
            } else {
                DataView::Enum(value@)
            },
    {
        if float_text(value) {
            Ok(TemplateData::Float(value.to_owned()))
        } else {
            Ok(TemplateData::Enum(value.to_owned()))
        }
    }

    /// The canonical form of a symbolic value.
    pub fn serialize_enum(value: &str) -> (r: String)
        ensures
            r@ == canonical_symbol(value@),
    {
        let ghost u = value@.map_values(|c: char| ascii_upper(c));
        let n = value.unicode_len();
        let mut out = String::new();
        let mut i: usize = 0;
        while i < n
            invariant
                u == value@.map_values(|c: char| ascii_upper(c)),
                n == u.len(),
                i <= n,
                out@ == strip_separators(u.subrange(0, i as int)),
            decreases n - i,
        {
            let c = upper_char(value.get_char(i));
            assert(u.subrange(0, i + 1).drop_last() =~= u.subrange(0, i as int));
            if c != '-' && c != '_' {
                push_char(&mut out, c);
            }
            i += 1;
        }
        assert(u.subrange(0, n as int) =~= u);
        out
    }

    /// A nested tree holding the given pairs (a later pair wins over an
    /// earlier one with the same key).
    pub fn from_entries(pairs: Vec<(String, TemplateData)>) -> (r: TemplateData)
        ensures
            r.wf(),
            r.view_data() == DataView::Table(entries_view(pairs@)),
    {
        TemplateData::Table(TemplateDataMap::from_entries(pairs))
    }
}

/// The nested tree of one value at the end of a path.
pub open spec fn path_view(path: Seq<Seq<char>>, leaf: DataView) -> DataView
    decreases path.len(),
{
    if path.len() <= 1 {
        leaf
    } else {
        DataView::Table(map![path[1] => path_view(path.drop_first(), leaf)])
    }
}

/// `acc` with `leaf` set at the end of `path`: tables along the path are
/// kept, anything else on the path is replaced.
pub open spec fn insert_path(acc: Map<Seq<char>, DataView>, path: Seq<Seq<char>>, leaf: DataView) -> Map<
    Seq<char>,
    DataView,
>
    decreases path.len(),
{
    if path.len() == 0 {
        acc
    } else if path.len() == 1 {
        acc.insert(path[0], leaf)
    } else {
        let sub = if acc.dom().contains(path[0]) && acc[path[0]] is Table {
            acc[path[0]]->Table_0
        } else {
            Map::empty()
        };
        acc.insert(path[0], DataView::Table(insert_path(sub, path.drop_first(), leaf)))
    }
}

/// `m` is the tree with a single branch along `path`, ending in `leaf`.
pub closed spec fn is_branch(m: TemplateDataMap, path: Seq<Seq<char>>, leaf: DataView) -> bool
    decreases path.len(),
{
    &&& path.len() >= 1
    &&& m.entries@.len() == 1
    &&& m.entries@[0].0@ == path[0]
    &&& if path.len() == 1 {
        m.entries@[0].1.view_data() == leaf && m.entries@[0].1.wf()
    } else {
        match m.entries@[0].1 {
            TemplateData::Table(sub) => is_branch(sub, path.drop_first(), leaf),
            _ => false,
        }
    }
}

proof fn lemma_branch_wf(m: TemplateDataMap, path: Seq<Seq<char>>, leaf: DataView)
    requires
        is_branch(m, path, leaf),
    ensures
        m.wf(),
    decreases path.len(),
{
    let e = m.entries@;
    if path.len() > 1 {
        if let TemplateData::Table(sub) = m.entries@[0].1 {
            lemma_branch_wf(sub, path.drop_first(), leaf);
            assert(sub.wf());
            assert(e[0].1.wf());
        }
    }
    assert(e[0].1.wf());
    assert(e.drop_last().len() == 0);
    assert(entries_view(e.drop_last()) =~= Map::<Seq<char>, DataView>::empty());
    assert(entries_wf(e.drop_last()));
    assert(e.last() == e[0]);
}

/// Force-merging a single-branch tree sets its leaf along its path.
pub proof fn lemma_merge_branch(acc: Map<Seq<char>, DataView>, m: TemplateDataMap, path: Seq<Seq<char>>, leaf: DataView)
    requires
        is_branch(m, path, leaf),
        !(leaf is Table),
    ensures
        merged(acc, m.spec_entries(), true) == insert_path(acc, path, leaf),
    decreases path.len(),
{
    let e = m.entries@;
    let k = e[0].0@;
    let v = e[0].1;
    assert(e.drop_last().len() == 0);
    assert(e.last() == e[0]);
    assert(merged(merge_entry(acc, k, v, true), e.drop_last(), true) == merge_entry(acc, k, v, true));
    assert(merged(acc, e, true) == merge_entry(acc, k, v, true));
    if path.len() > 1 {
        if let TemplateData::Table(sub) = v {
            lemma_merge_branch(acc[k]->Table_0, sub, path.drop_first(), leaf);
            lemma_merge_branch(Map::empty(), sub, path.drop_first(), leaf);
            lemma_branch_wf(sub, path.drop_first(), leaf);
            lemma_merged_disjoint(Map::empty(), sub.entries@, true);
            assert(Map::<Seq<char>, DataView>::empty().union_prefer_right(sub@) =~= sub@);
        }
    }
}

impl TemplateDataMap {
    /// The tree with `leaf` at the end of `path`.
    pub fn single_branch(path: &Vec<String>, leaf: TemplateData) -> (r: TemplateDataMap)
        requires
            path@.len() >= 1,
            !(leaf.view_data() is Table),
        ensures
            is_branch(r, path@.map_values(|s: String| s@), leaf.view_data()),
            r.wf(),
    {
        let ghost p = path@.map_values(|s: String| s@);
        let n = path.len();
        data_is_wf(&leaf);
        let mut first: Vec<(String, TemplateData)> = Vec::new();
        proof {
            lemma_entries_push(first@, (path@[n - 1], leaf));
        }
        first.push((path[n - 1].clone(), leaf));
        let mut m = TemplateDataMap { entries: first };
        let mut i: usize = n - 1;
        assert(p.subrange(n - 1, n as int).drop_first().len() == 0);
        while i > 0
            invariant
                p == path@.map_values(|s: String| s@),
                n == p.len(),
                i < n,
                is_branch(m, p.subrange(i as int, n as int), leaf.view_data()),
            decreases i,
        {
            let seg = path[i - 1].clone();
            let inner = m;
            proof {
                use_type_invariant(&inner);
            }
            let mut level: Vec<(String, TemplateData)> = Vec::new();
            proof {
                lemma_entries_push(level@, (seg, TemplateData::Table(inner)));
            }
            level.push((seg, TemplateData::Table(inner)));
            m = TemplateDataMap { entries: level };
            assert(p.subrange(i - 1, n as int).drop_first() =~= p.subrange(i as int, n as int));
            i -= 1;
        }
        assert(p.subrange(0, n as int) =~= p);
        proof {
            lemma_branch_wf(m, p, leaf.view_data());
        }
        m
    }
}

proof fn lemma_entries_same_views(e: Seq<(String, TemplateData)>, f: Seq<(String, TemplateData)>)
    requires
        entries_wf(e),
        e.len() == f.len(),
        forall|j: int|
            0 <= j < e.len() ==> (#[trigger] f[j]).0@ == e[j].0@ && f[j].1.view_data()
                == e[j].1.view_data() && f[j].1.wf(),
    ensures
        entries_wf(f),
        entries_view(f) == entries_view(e),
    decreases e.len(),
{
    if e.len() > 0 {
        let (de, df) = (e.drop_last(), f.drop_last());
        assert forall|j: int| 0 <= j < de.len() implies (#[trigger] df[j]).0@ == de[j].0@
            && df[j].1.view_data() == de[j].1.view_data() && df[j].1.wf() by {
            assert(df[j] == f[j] && de[j] == e[j]);
        }
        lemma_entries_same_views(de, df);
        assert(f.last() == f[f.len() - 1] && e.last() == e[e.len() - 1]);
    }
}

impl TemplateData {
    /// A copy of the parameter, nested trees included.
    pub fn deep_clone(&self) -> (r: TemplateData)
        ensures
            r.view_data() == self.view_data(),
            r.wf(),
        decreases self,
    {
        match self {
            TemplateData::Enum(s) => TemplateData::Enum(s.clone()),
            TemplateData::Float(s) => TemplateData::Float(s.clone()),
            TemplateData::Table(m) => TemplateData::Table(m.deep_clone()),
        }
    }
}

impl TemplateDataMap {
    /// A copy of the tree.
    pub fn deep_clone(&self) -> (r: TemplateDataMap)
        ensures
            r@ == self@,
            r.wf(),
        decreases self,
    {
        proof {
            use_type_invariant(self);
        }
        let n = self.entries.len();
        let mut out: Vec<(String, TemplateData)> = Vec::new();
        let mut i: usize = 0;
        while i < n
            invariant
                n == self.entries@.len(),
                entries_wf(self.entries@),
                i <= n,
                out@.len() == i,
                forall|j: int|
                    0 <= j < i ==> (#[trigger] out@[j]).0@ == self.entries@[j].0@
                        && out@[j].1.view_data() == self.entries@[j].1.view_data()
                        && out@[j].1.wf(),
            decreases n - i,
        {
            proof {
                broadcast use vstd::std_specs::vec::axiom_vec_index_decreases;

                assert(decreases_to!(self => self.entries));
                assert(decreases_to!(self.entries => self.entries[i as int]));
                assert(decreases_to!(self.entries[i as int] => self.entries[i as int].1));
            }
            let v = self.entries[i].1.deep_clone();
            out.push((self.entries[i].0.clone(), v));
            i += 1;
        }
        proof {
            lemma_entries_same_views(self.entries@, out@);
        }
        TemplateDataMap { entries: out }
    }
}

impl Clone for TemplateDataMap {
    fn clone(&self) -> (r: TemplateDataMap)
        ensures
            r@ == self@,
    {
        self.deep_clone()
    }
}

impl Clone for TemplateData {
    fn clone(&self) -> (r: TemplateData)
        ensures
            r.view_data() == self.view_data(),
    {
        self.deep_clone()
    }
}

} // verus!
