use crate::gbf::sorted_irep;
use crate::names::{entry_insert, insert_entry, names_sorted};
use vstd::prelude::*;

verus! {

/// A node of the intermediate representation: an identifier, positional
/// children, named children and comments.
///
/// `named_subt` and `comments` map names to nodes (see [`IrepMap`]).
#[derive(Debug, Default, Hash)]
pub struct Irept {
    pub id: String,
    pub subt: Vec<Irept>,
    pub named_subt: IrepMap,
    pub comments: IrepMap,
}

/// A map from names to nodes. Its entries are kept in increasing order of
/// their names (see `crate::names::name_less`), so no name occurs twice and
/// two maps with the same entries hold them in the same order; setting a name
/// that is present replaces its value.
#[derive(Debug, Default, Hash)]
pub struct IrepMap {
    entries: Vec<(String, Irept)>,
}

impl IrepMap {
    /// The entries are sorted by name.
    #[verifier::type_invariant]
    closed spec fn sorted(self) -> bool {
        names_sorted(entry_views(self.entries@))
    }

    /// The entries, in increasing order of their names.
    pub closed spec fn entries_view(self) -> Seq<(Seq<char>, IrepV)>
        decreases self,
    {
        entry_views(self.entries@)
    }

    /// A map without entries.
    pub fn new() -> (m: IrepMap)
        ensures
            m.entries_view() == Seq::<(Seq<char>, IrepV)>::empty(),
    {
        let m = IrepMap { entries: Vec::new() };
        assert(entry_views(m.entries@) =~= Seq::<(Seq<char>, IrepV)>::empty());
        m
    }

    /// The number of entries; the entries are sorted by name.
    pub fn len(&self) -> (r: usize)
        ensures
            r == self.entries_view().len(),
            names_sorted(self.entries_view()),
    {
        proof {
            use_type_invariant(self);
            lemma_entry_views(self.entries@);
        }
        self.entries.len()
    }

    /// The name of entry `i`.
    pub fn name(&self, i: usize) -> (r: &String)
        requires
            i < self.entries_view().len(),
        ensures
            r@ == self.entries_view()[i as int].0,
    {
        proof {
            lemma_entry_views(self.entries@);
        }
        &self.entries[i].0
    }

    /// The node of entry `i`.
    pub fn value(&self, i: usize) -> (r: &Irept)
        requires
            i < self.entries_view().len(),
        ensures
            r@ == self.entries_view()[i as int].1,
    {
        proof {
            lemma_entry_views(self.entries@);
        }
        &self.entries[i].1
    }

    /// Sets the entry named `key` to `value` (see [`entry_insert`]).
    pub fn insert(&mut self, key: String, value: Irept)
        ensures
            final(self).entries_view() == entry_insert(old(self).entries_view(), key@, value@),
    {
        proof {
            use_type_invariant(&*self);
        }
        let mut entries: Vec<(String, Irept)> = Vec::new();
        std::mem::swap(&mut entries, &mut self.entries);
        insert_entry(&mut entries, key, value);
        self.entries = entries;
    }
}

/// The mathematical value of an [`Irept`].
pub struct IrepV {
    pub id: Seq<char>,
    pub subt: Seq<IrepV>,
    pub named_subt: Seq<(Seq<char>, IrepV)>,
    pub comments: Seq<(Seq<char>, IrepV)>,
}

pub open spec fn irep_view(x: Irept) -> IrepV
    decreases x,
{
    IrepV {
        id: x.id@,
        subt: irep_views(x.subt@),
        named_subt: x.named_subt.entries_view(),
        comments: x.comments.entries_view(),
    }
}

pub open spec fn irep_views(s: Seq<Irept>) -> Seq<IrepV>
    decreases s,
{
    if s.len() == 0 {
        Seq::empty()
    } else {
        irep_views(s.drop_last()).push(irep_view(s.last()))
    }
}

pub open spec fn entry_views(s: Seq<(String, Irept)>) -> Seq<(Seq<char>, IrepV)>
    decreases s,
{
    if s.len() == 0 {
        Seq::empty()
    } else {
        entry_views(s.drop_last()).push((s.last().0@, irep_view(s.last().1)))
    }
}

impl View for Irept {
    type V = IrepV;

    open spec fn view(&self) -> IrepV {
        irep_view(*self)
    }
}


/// An `IrepV` with the given identifier and no children.
pub open spec fn leaf(id: Seq<char>) -> IrepV {
    IrepV { id, subt: Seq::empty(), named_subt: Seq::empty(), comments: Seq::empty() }
}

pub proof fn lemma_irep_views(s: Seq<Irept>)
    ensures
        irep_views(s).len() == s.len(),
        forall|i: int| 0 <= i < s.len() ==> #[trigger] irep_views(s)[i] == irep_view(s[i]),
    decreases s.len(),
{
    if s.len() > 0 {
        lemma_irep_views(s.drop_last());
    }
}

pub proof fn lemma_entry_views(s: Seq<(String, Irept)>)
    ensures
        entry_views(s).len() == s.len(),
        forall|i: int|
            0 <= i < s.len() ==> #[trigger] entry_views(s)[i] == (s[i].0@, irep_view(s[i].1)),
    decreases s.len(),
{
    if s.len() > 0 {
        lemma_entry_views(s.drop_last());
    }
}

pub proof fn lemma_irep_views_push(s: Seq<Irept>, x: Irept)
    ensures
        irep_views(s.push(x)) == irep_views(s).push(irep_view(x)),
{
    assert(s.push(x).drop_last() =~= s);
}

/// Copies a map, entry by entry. Its names are sorted, and so is every map
/// within its values.
fn copy_entries(m: &IrepMap) -> (r: IrepMap)
    ensures
        r.entries_view() == m.entries_view(),
        names_sorted(m.entries_view()),
        forall|i: int| 0 <= i < m.entries_view().len() ==> sorted_irep((#[trigger] m.entries_view()[i]).1),
    decreases m.entries_view(),
{
    proof {
        use_type_invariant(m);
        lemma_entry_views(m.entries@);
    }
    let v = &m.entries;
    let mut out: Vec<(String, Irept)> = Vec::new();
    let n = v.len();
    for i in 0..n
        invariant
            n == v.len(),
            out.len() == i,
            forall|j: int| 0 <= j < i ==> (#[trigger] out@[j]).0@ == v@[j].0@ && irep_view(out@[j].1) == irep_view(v@[j].1),
            forall|j: int| 0 <= j < i ==> sorted_irep((#[trigger] entry_views(v@)[j]).1),
            m.entries_view() == entry_views(v@),
            entry_views(v@).len() == n,
            forall|j: int| 0 <= j < n ==> #[trigger] entry_views(v@)[j] == (v@[j].0@, irep_view(v@[j].1)),
    {
        assert(decreases_to!(m.entries_view() => m.entries_view()[i as int].1));
        let name = v[i].0.clone();
        let value = copy_irep(&v[i].1);
        out.push((name, value));
    }
    proof {
        lemma_entry_views(out@);
        lemma_entry_views(v@);
        assert(entry_views(out@) =~= entry_views(v@));
    }
    IrepMap { entries: out }
}

/// A deep copy of `x`. Every map in `x`, at any depth, is sorted by name.
pub fn copy_irep(x: &Irept) -> (r: Irept)
    ensures
        r@ == x@,
        sorted_irep(x@),
    decreases x@,
{
    proof {
        lemma_irep_views(x.subt@);
    }
    let mut subt: Vec<Irept> = Vec::new();
    let n = x.subt.len();
    for i in 0..n
        invariant
            n == x.subt.len(),
            subt.len() == i,
            forall|j: int| 0 <= j < i ==> irep_view(#[trigger] subt@[j]) == irep_view(x.subt@[j]),
            forall|j: int| 0 <= j < i ==> sorted_irep(#[trigger] irep_views(x.subt@)[j]),
            irep_views(x.subt@).len() == n,
            forall|j: int| 0 <= j < n ==> #[trigger] irep_views(x.subt@)[j] == irep_view(x.subt@[j]),
    {
        assert(decreases_to!(x@ => x@.subt[i as int]));
        let c = copy_irep(&x.subt[i]);
        subt.push(c);
    }
    assert(decreases_to!(x@ => x@.named_subt));
    assert(decreases_to!(x@ => x@.comments));
    let named_subt = copy_entries(&x.named_subt);
    let comments = copy_entries(&x.comments);
    let r = Irept { id: x.id.clone(), subt, named_subt, comments };
    proof {
        lemma_irep_views(r.subt@);
        lemma_irep_views(x.subt@);
        assert(irep_views(r.subt@) =~= irep_views(x.subt@));
        reveal(sorted_irep);
    }
    r
}

impl PartialEq for Irept {
    fn eq(&self, other: &Irept) -> (r: bool) {
        irep_eq(self, other)
    }
}

impl vstd::std_specs::cmp::PartialEqSpecImpl for Irept {
    open spec fn obeys_eq_spec() -> bool {
        true
    }

    open spec fn eq_spec(&self, other: &Irept) -> bool {
        self@ == other@
    }
}

impl Eq for Irept {
}

impl Clone for Irept {
    fn clone(&self) -> (r: Self)
        ensures
            r@ == self@,
    {
        copy_irep(self)
    }
}


impl From<String> for Irept {
    /// A node with identifier `id` and no children.
    fn from(id: String) -> (r: Irept)
        ensures
            r@ == leaf(id@),
    {
        Irept::from_string(id)
    }
}

impl vstd::std_specs::convert::FromSpecImpl<String> for Irept {
    open spec fn obeys_from_spec() -> bool {
        false
    }

    open spec fn from_spec(id: String) -> Irept {
        choose|r: Irept| r@ == leaf(id@)
    }
}

impl<'a> From<&'a str> for Irept {
    /// A node with identifier `id` and no children.
    fn from(id: &'a str) -> (r: Irept)
        ensures
            r@ == leaf(id@),
    {
        Irept::from_str_id(id)
    }
}

impl<'a> vstd::std_specs::convert::FromSpecImpl<&'a str> for Irept {
    open spec fn obeys_from_spec() -> bool {
        false
    }

    open spec fn from_spec(id: &'a str) -> Irept {
        choose|r: Irept| r@ == leaf(id@)
    }
}

impl<'a> From<&'a String> for Irept {
    /// A node with identifier `id` and no children.
    fn from(id: &'a String) -> (r: Irept)
        ensures
            r@ == leaf(id@),
    {
        Irept::from_str_id(id.as_str())
    }
}

impl<'a> vstd::std_specs::convert::FromSpecImpl<&'a String> for Irept {
    open spec fn obeys_from_spec() -> bool {
        false
    }

    open spec fn from_spec(id: &'a String) -> Irept {
        choose|r: Irept| r@ == leaf(id@)
    }
}

/// Compares two maps entry by entry.
fn entries_equal(ma: &IrepMap, mb: &IrepMap) -> (r: bool)
    ensures
        r == (ma.entries_view() == mb.entries_view()),
    decreases ma.entries_view(),
{
    let a = &ma.entries;
    let b = &mb.entries;
    proof {
        lemma_entry_views(a@);
        lemma_entry_views(b@);
    }
    if a.len() != b.len() {
        return false;
    }
    let n = a.len();
    for i in 0..n
        invariant
            n == a.len(),
            n == b.len(),
            entry_views(a@).len() == n,
            entry_views(b@).len() == n,
            forall|j: int| 0 <= j < a.len() ==> #[trigger] entry_views(a@)[j] == (a@[j].0@, irep_view(a@[j].1)),
            forall|j: int| 0 <= j < b.len() ==> #[trigger] entry_views(b@)[j] == (b@[j].0@, irep_view(b@[j].1)),
            forall|j: int| 0 <= j < i ==> #[trigger] entry_views(a@)[j] == entry_views(b@)[j],
            ma.entries_view() == entry_views(a@),
            mb.entries_view() == entry_views(b@),
    {
        let same_name = a[i].0 == b[i].0;
        if !same_name {
            assert(entry_views(a@)[i as int] != entry_views(b@)[i as int]);
            return false;
        }
        assert(decreases_to!(ma.entries_view() => ma.entries_view()[i as int].1));
        let same_value = irep_eq(&a[i].1, &b[i].1);
        if !same_value {
            assert(entry_views(a@)[i as int] != entry_views(b@)[i as int]);
            return false;
        }
    }
    assert(entry_views(a@) =~= entry_views(b@));
    true
}

/// Equality of nodes: the same identifier, the same children in the same
/// order, and the same named children and comments. Since maps keep their
/// entries sorted by name, two maps are equal exactly when they hold the same
/// entries (see `crate::names::lemma_sorted_lists_equal`).
pub fn irep_eq(a: &Irept, b: &Irept) -> (r: bool)
    ensures
        r == (a@ == b@),
    decreases a@,
{
    proof {
        lemma_irep_views(a.subt@);
        lemma_irep_views(b.subt@);
    }
    if a.id != b.id {
        return false;
    }
    if a.subt.len() != b.subt.len() {
        return false;
    }
    let n = a.subt.len();
    for i in 0..n
        invariant
            n == a.subt.len(),
            n == b.subt.len(),
            irep_views(a.subt@).len() == n,
            irep_views(b.subt@).len() == n,
            forall|j: int| 0 <= j < n ==> #[trigger] irep_views(a.subt@)[j] == irep_view(a.subt@[j]),
            forall|j: int| 0 <= j < n ==> #[trigger] irep_views(b.subt@)[j] == irep_view(b.subt@[j]),
            forall|j: int| 0 <= j < i ==> #[trigger] irep_views(a.subt@)[j] == irep_views(b.subt@)[j],
    {
        assert(decreases_to!(a@ => a@.subt[i as int]));
        if !irep_eq(&a.subt[i], &b.subt[i]) {
            assert(irep_views(a.subt@)[i as int] != irep_views(b.subt@)[i as int]);
            return false;
        }
    }
    assert(irep_views(a.subt@) =~= irep_views(b.subt@));
    assert(decreases_to!(a@ => a@.named_subt));
    assert(decreases_to!(a@ => a@.comments));
    if !entries_equal(&a.named_subt, &b.named_subt) {
        return false;
    }
    entries_equal(&a.comments, &b.comments)
}


impl Irept {
    /// A node with identifier `id` and no children.
    pub fn from_string(id: String) -> (r: Irept)
        ensures
            r@ == leaf(id@),
    {
        let r = Irept { id, subt: Vec::new(), named_subt: IrepMap::new(), comments: IrepMap::new() };
        proof {
            assert(irep_views(r.subt@) =~= Seq::<IrepV>::empty());
        }
        r
    }

    /// A node with identifier `id` and no children.
    pub fn from_str_id(id: &str) -> (r: Irept)
        ensures
            r@ == leaf(id@),
    {
        Irept::from_string(id.to_owned())
    }

    /// The node `nil`, which stands for an absent value.
    pub fn get_nil() -> (r: Irept)
        ensures
            r@ == leaf("nil"@),
    {
        Irept::from_str_id("nil")
    }
}

} // verus!
