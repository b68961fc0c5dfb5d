use vstd::prelude::*;

verus! {

/// The elements of `s` that do not occur in `t`, in the order of `s`.
pub open spec fn difference(s: Seq<i32>, t: Seq<i32>) -> Seq<i32> {
    s.filter(|x: i32| !t.contains(x))
}

/// The elements of `s` that also occur in `t`, in the order of `s`.
pub open spec fn common(s: Seq<i32>, t: Seq<i32>) -> Seq<i32> {
    s.filter(|x: i32| t.contains(x))
}

/// `s`, followed by the elements of `t` that do not occur in `s`.
pub open spec fn merged(s: Seq<i32>, t: Seq<i32>) -> Seq<i32> {
    s + difference(t, s)
}

/// `difference(s, t)` holds exactly the elements of `s` that `t` lacks.
pub proof fn lemma_difference_contains(s: Seq<i32>, t: Seq<i32>, x: i32)
    ensures
        difference(s, t).contains(x) == (s.contains(x) && !t.contains(x)),
{
    broadcast use {vstd::seq_lib::group_filter_ensures, Seq::lemma_filter_contains_rev};

    let d = difference(s, t);
    if d.contains(x) {
        let j = choose|j: int| 0 <= j < d.len() && d[j] == x;
        assert(!t.contains(d[j]));
    }
    if s.contains(x) && !t.contains(x) {
        let i = choose|i: int| 0 <= i < s.len() && s[i] == x;
        assert(d.contains(s[i]));
    }
}

/// `common(s, t)` holds exactly the elements that `s` and `t` share.
pub proof fn lemma_common_contains(s: Seq<i32>, t: Seq<i32>, x: i32)
    ensures
        common(s, t).contains(x) == (s.contains(x) && t.contains(x)),
{
    broadcast use {vstd::seq_lib::group_filter_ensures, Seq::lemma_filter_contains_rev};

    let d = common(s, t);
    if d.contains(x) {
        let j = choose|j: int| 0 <= j < d.len() && d[j] == x;
        assert(t.contains(d[j]));
    }
    if s.contains(x) && t.contains(x) {
        let i = choose|i: int| 0 <= i < s.len() && s[i] == x;
        assert(d.contains(s[i]));
    }
}

/// How `common` and `difference` grow with one more element of `s`.
proof fn lemma_filter_step(s: Seq<i32>, t: Seq<i32>, x: i32)
    ensures
        common(s.push(x), t) == if t.contains(x) {
            common(s, t).push(x)
        } else {
            common(s, t)
        },
        difference(s.push(x), t) == if t.contains(x) {
            difference(s, t)
        } else {
            difference(s, t).push(x)
        },
        common(Seq::empty(), t) == Seq::<i32>::empty(),
        difference(Seq::empty(), t) == Seq::<i32>::empty(),
{
    reveal(Seq::filter);
    assert(s.push(x).drop_last() =~= s);
}

/// `merged(s, t)` holds exactly the elements of `s` and those of `t`.
pub proof fn lemma_merged_contains(s: Seq<i32>, t: Seq<i32>, x: i32)
    ensures
        merged(s, t).contains(x) == (s.contains(x) || t.contains(x)),
{
    lemma_difference_contains(t, s, x);
    let d = difference(t, s);
    if s.contains(x) {
        let i = choose|i: int| 0 <= i < s.len() && s[i] == x;
        assert(merged(s, t)[i] == x);
    }
    if d.contains(x) {
        let i = choose|i: int| 0 <= i < d.len() && d[i] == x;
        assert(merged(s, t)[s.len() + i] == x);
    }
    if merged(s, t).contains(x) {
        let i = choose|i: int| 0 <= i < merged(s, t).len() && merged(s, t)[i] == x;
        if i < s.len() {
            assert(s[i] == x);
        } else {
            assert(d[i - s.len()] == x);
        }
    }
}

/// Whether `x` occurs in `values`.
pub fn contains_value(values: &Vec<i32>, x: i32) -> (r: bool)
    ensures
        r == values@.contains(x),
{
    let mut i: usize = 0;
    while i < values.len()
        invariant
            i <= values.len(),
            forall|j: int| 0 <= j < i ==> values[j] != x,
        decreases values.len() - i,
    {
        if values[i] == x {
            return true;
        }
        i += 1;
    }
    false
}

/// The elements of `source` whose presence in `other` equals `present`, in
/// their order.
pub fn filtered(source: &Vec<i32>, other: &Vec<i32>, present: bool) -> (out: Vec<i32>)
    ensures
        out@ == if present {
            common(source@, other@)
        } else {
            difference(source@, other@)
        },
{
    let mut out: Vec<i32> = Vec::new();
    let mut i: usize = 0;
    proof {
        lemma_filter_step(Seq::empty(), other@, 0);
    }
    while i < source.len()
        invariant
            i <= source.len(),
            out@ == if present {
                common(source@.take(i as int), other@)
            } else {
                difference(source@.take(i as int), other@)
            },
        decreases source.len() - i,
    {
        let x = source[i];
        let found = contains_value(other, x);
        proof {
            lemma_filter_step(source@.take(i as int), other@, x);
            assert(source@.take(i + 1) =~= source@.take(i as int).push(x));
        }
        if found == present {
            out.push(x);
        }
        i += 1;
    }
    assert(source@.take(i as int) =~= source@);
    out
}

/// `first`, followed by the elements of `second` that `first` lacks.
fn merge(first: Vec<i32>, second: &Vec<i32>) -> (out: Vec<i32>)
    ensures
        out@ == merged(first@, second@),
{
    let mut out = first;
    let mut extra = filtered(second, &out, false);
    out.append(&mut extra);
    out
}

/// The stored form of a set of integers as plain values: the explicit
/// finite `values`, and the flag that says whether the set is those values
/// or everything else.
pub struct SetModel {
    pub values: Seq<i32>,
    pub is_complement: bool,
}

impl SetModel {
    /// Whether `x` belongs to the set.
    pub open spec fn contains(self, x: i32) -> bool {
        self.values.contains(x) != self.is_complement
    }

    /// The integers that belong to the set.
    pub open spec fn elements(self) -> Set<i32> {
        Set::new(|x: i32| self.contains(x))
    }

    /// The complement: the same values, with the flag flipped.
    pub open spec fn complement(self) -> SetModel {
        SetModel { values: self.values, is_complement: !self.is_complement }
    }

    /// The union, case by case on the two flags:
    /// `A ∪ B`; `¬A ∪ ¬B = ¬(A ∩ B)`; `¬A ∪ B = ¬(A ∖ B)`; `A ∪ ¬B = ¬(B ∖ A)`.
    pub open spec fn union(self, rhs: SetModel) -> SetModel {
        if !self.is_complement && !rhs.is_complement {
            SetModel { values: merged(self.values, rhs.values), is_complement: false }
        } else if self.is_complement && rhs.is_complement {
            SetModel { values: common(self.values, rhs.values), is_complement: true }
        } else if self.is_complement {
            SetModel { values: difference(self.values, rhs.values), is_complement: true }
        } else {
            SetModel { values: difference(rhs.values, self.values), is_complement: true }
        }
    }

    /// The intersection, case by case on the two flags:
    /// `A ∩ B`; `¬A ∩ ¬B = ¬(A ∪ B)`; `¬A ∩ B = B ∖ A`; `A ∩ ¬B = A ∖ B`.
    pub open spec fn intersection(self, rhs: SetModel) -> SetModel {
        if !self.is_complement && !rhs.is_complement {
            SetModel { values: common(self.values, rhs.values), is_complement: false }
        } else if self.is_complement && rhs.is_complement {
            SetModel { values: merged(self.values, rhs.values), is_complement: true }
        } else if self.is_complement {
            SetModel { values: difference(rhs.values, self.values), is_complement: false }
        } else {
            SetModel { values: difference(self.values, rhs.values), is_complement: false }
        }
    }

    /// The set as an explicit list of values, a complement being taken in
    /// `universe`: the values themselves, or the values of `universe` that
    /// are not among them.
    pub open spec fn resolve(self, universe: Seq<i32>) -> Seq<i32> {
        if self.is_complement {
            difference(universe, self.values)
        } else {
            self.values
        }
    }

    /// The resolved list holds the integers of the set, as far as a
    /// complement reaches into the universe.
    pub proof fn lemma_resolve(self, universe: Seq<i32>, x: i32)
        ensures
            self.resolve(universe).contains(x) == if self.is_complement {
                universe.contains(x) && self.contains(x)
            } else {
                self.contains(x)
            },
    {
        lemma_difference_contains(universe, self.values, x);
    }

    /// An integer belongs to the complement exactly when it does not belong
    /// to the set.
    pub proof fn lemma_complement(self, x: i32)
        ensures
            self.complement().contains(x) == !self.contains(x),
    {
    }

    /// An integer belongs to the union exactly when it belongs to one of the
    /// two sets.
    pub proof fn lemma_union(self, rhs: SetModel, x: i32)
        ensures
            self.union(rhs).contains(x) == (self.contains(x) || rhs.contains(x)),
    {
        lemma_merged_contains(self.values, rhs.values, x);
        lemma_common_contains(self.values, rhs.values, x);
        lemma_difference_contains(self.values, rhs.values, x);
        lemma_difference_contains(rhs.values, self.values, x);
    }

    /// An integer belongs to the intersection exactly when it belongs to both
    /// sets.
    pub proof fn lemma_intersection(self, rhs: SetModel, x: i32)
        ensures
            self.intersection(rhs).contains(x) == (self.contains(x) && rhs.contains(x)),
    {
        lemma_merged_contains(self.values, rhs.values, x);
        lemma_common_contains(self.values, rhs.values, x);
        lemma_difference_contains(self.values, rhs.values, x);
        lemma_difference_contains(rhs.values, self.values, x);
    }

    /// The three operations on stored forms are complement, union and
    /// intersection of the sets they denote.
    pub proof fn lemma_elements(self, rhs: SetModel)
        ensures
            self.complement().elements() == self.elements().complement(),
            self.union(rhs).elements() == self.elements().union(rhs.elements()),
            self.intersection(rhs).elements() == self.elements().intersect(rhs.elements()),
    {
        assert forall|x: i32|
            self.union(rhs).contains(x) == (self.contains(x) || rhs.contains(x))
            && self.intersection(rhs).contains(x) == (self.contains(x) && rhs.contains(x)) by {
            self.lemma_union(rhs, x);
            self.lemma_intersection(rhs, x);
        }
    }
}

/// A set of integers, finite or co-finite: the explicit finite `values`, and
/// a flag that says whether the set is those values or everything else.
///
/// An integer `x` belongs to the set when `values.contains(x) != is_complement`,
/// so no infinite complement is ever enumerated.
#[derive(Debug, PartialEq, Eq)]
pub struct IntSet {
    pub values: Vec<i32>,
    pub is_complement: bool,
}

impl View for IntSet {
    type V = Set<i32>;

    /// The integers that belong to the set.
    open spec fn view(&self) -> Set<i32> {
        self.model().elements()
    }
}

impl Clone for IntSet {
    fn clone(&self) -> (r: Self)
        ensures
            r.model() == self.model(),
    {
        let values = self.values.clone();
        IntSet { values, is_complement: self.is_complement }
    }
}

impl IntSet {
    /// The stored form, as plain values.
    pub open spec fn model(self) -> SetModel {
        SetModel { values: self.values@, is_complement: self.is_complement }
    }

    /// The complement: the same values, with the flag flipped.
    pub fn complement(self) -> (r: Self)
        ensures
            r.values == self.values,
            r.is_complement == !self.is_complement,
            r@ == self@.complement(),
    {
        proof {
            self.model().lemma_elements(self.model());
        }
        IntSet { values: self.values, is_complement: !self.is_complement }
    }

    /// The complement of the set, as `complement` gives it.
    pub fn not(self) -> (r: Self)
        ensures
            r.values == self.values,
            r.is_complement == !self.is_complement,
            r@ == self@.complement(),
    {
        self.complement()
    }

    /// The values of `self` followed by those of `other` that `self` lacks,
    /// as a plain set. The flags of the operands are not consulted: this is
    /// the union when neither operand is a complement.
    pub fn union(self, other: Self) -> (r: Self)
        ensures
            r.values@ == merged(self.values@, other.values@),
            !r.is_complement,
            !self.is_complement && !other.is_complement ==> r@ == self@.union(other@),
    {
        proof {
            self.model().lemma_elements(other.model());
        }
        IntSet { values: merge(self.values, &other.values), is_complement: false }
    }
}

impl From<Vec<i32>> for IntSet {
    /// The finite set of the given values.
    fn from(values: Vec<i32>) -> (r: Self) {
        IntSet { values, is_complement: false }
    }
}

impl vstd::std_specs::convert::FromSpecImpl<Vec<i32>> for IntSet {
    open spec fn obeys_from_spec() -> bool {
        true
    }

    open spec fn from_spec(values: Vec<i32>) -> Self {
        IntSet { values, is_complement: false }
    }
}

impl std::ops::BitOr for IntSet {
    type Output = IntSet;

    /// The union of two sets.
    fn bitor(self, rhs: IntSet) -> (r: IntSet)
        ensures
            r.model() == self.model().union(rhs.model()),
            r@ == self@.union(rhs@),
    {
        proof {
            self.model().lemma_elements(rhs.model());
        }
        if !self.is_complement && !rhs.is_complement {
            self.union(rhs)
        } else if self.is_complement && rhs.is_complement {
            IntSet { values: filtered(&self.values, &rhs.values, true), is_complement: true }
        } else if self.is_complement {
            IntSet { values: filtered(&self.values, &rhs.values, false), is_complement: true }
        } else {
            IntSet { values: filtered(&rhs.values, &self.values, false), is_complement: true }
        }
    }
}

/// What `|` returns is stated by the `ensures` of `bitor` itself, over the
/// stored form: no set value is named here.
impl vstd::std_specs::ops::BitOrSpecImpl for IntSet {
    open spec fn obeys_bitor_spec() -> bool {
        false
    }

    open spec fn bitor_req(self, rhs: IntSet) -> bool {
        true
    }

    open spec fn bitor_spec(self, rhs: IntSet) -> IntSet {
        self
    }
}

impl std::ops::BitAnd for IntSet {
    type Output = IntSet;

    /// The intersection of two sets.
    fn bitand(self, rhs: IntSet) -> (r: IntSet)
        ensures
            r.model() == self.model().intersection(rhs.model()),
            r@ == self@.intersect(rhs@),
    {
        proof {
            self.model().lemma_elements(rhs.model());
        }
        if !self.is_complement && !rhs.is_complement {
            IntSet { values: filtered(&self.values, &rhs.values, true), is_complement: false }
        } else if self.is_complement && rhs.is_complement {
            IntSet { values: merge(self.values, &rhs.values), is_complement: true }
        } else if self.is_complement {
            IntSet { values: filtered(&rhs.values, &self.values, false), is_complement: false }
        } else {
            IntSet { values: filtered(&self.values, &rhs.values, false), is_complement: false }
        }
    }
}

/// What `&` returns is stated by the `ensures` of `bitand` itself, over the
/// stored form: no set value is named here.
impl vstd::std_specs::ops::BitAndSpecImpl for IntSet {
    open spec fn obeys_bitand_spec() -> bool {
        false
    }

    open spec fn bitand_req(self, rhs: IntSet) -> bool {
        true
    }

    open spec fn bitand_spec(self, rhs: IntSet) -> IntSet {
        self
    }
}

} // verus!
