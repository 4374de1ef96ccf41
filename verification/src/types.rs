//! Values of task parameters and sets of them.

use vstd::prelude::*;
use crate::range_expr::{IntRun, RangeExpr};

verus! {

/// The type of a task parameter.
#[derive(Clone, Copy, Debug, PartialEq, Eq, Structural)]
pub enum TaskParameterType {
    Int,
    Float,
    String,
    Path,
    ChunkInt,
}

/// Whether a path parameter names a file or a directory.
#[derive(Clone, Copy, Debug, PartialEq, Eq, Structural)]
pub enum ObjectType {
    File,
    Directory,
}

/// The direction in which data flows through a path parameter.
#[derive(Clone, Copy, Debug, PartialEq, Eq, Structural)]
pub enum DataFlow {
    NoFlow,
    In,
    Out,
    InOut,
}

/// A finite floating-point value, held as its IEEE-754 bit pattern, with
/// the text it is displayed as.
#[derive(Clone, Debug)]
pub struct FloatValue {
    pub bits: u64,
    pub text: String,
}

pub const FLOAT_SIGN_BIT: u64 = 0x8000_0000_0000_0000;
pub const FLOAT_EXPONENT_MASK: u64 = 0x7ff0_0000_0000_0000;

/// Whether the bit pattern is a NaN or an infinity.
pub open spec fn float_bits_non_finite(bits: u64) -> bool {
    bits & FLOAT_EXPONENT_MASK == FLOAT_EXPONENT_MASK
}

/// Whether the bit pattern is a NaN.
pub open spec fn float_bits_nan(bits: u64) -> bool {
    bits & FLOAT_EXPONENT_MASK == FLOAT_EXPONENT_MASK && bits & 0x000f_ffff_ffff_ffff != 0
}

/// Whether the bit pattern is positive or negative zero.
pub open spec fn float_bits_zero(bits: u64) -> bool {
    bits & 0x7fff_ffff_ffff_ffff == 0
}

/// IEEE-754 equality of two values given by their bit patterns: no NaN
/// equals anything, the two zeros are equal, and otherwise equal values
/// have equal bits.
pub open spec fn float_bits_eq(a: u64, b: u64) -> bool {
    !float_bits_nan(a) && !float_bits_nan(b) && (a == b || (float_bits_zero(a) && float_bits_zero(b)))
}

pub fn float_eq(a: u64, b: u64) -> (r: bool)
    ensures
        r == float_bits_eq(a, b),
{
    let a_nan = (a & FLOAT_EXPONENT_MASK) == FLOAT_EXPONENT_MASK && (a & 0x000f_ffff_ffff_ffff) != 0;
    let b_nan = (b & FLOAT_EXPONENT_MASK) == FLOAT_EXPONENT_MASK && (b & 0x000f_ffff_ffff_ffff) != 0;
    !a_nan && !b_nan && (a == b || ((a & 0x7fff_ffff_ffff_ffff) == 0 && (b & 0x7fff_ffff_ffff_ffff) == 0))
}

/// The mathematical view of a parameter value.
pub enum ValueView {
    Int(i64),
    Float(u64, Seq<char>),
    Str(Seq<char>),
    Path(Seq<char>),
    Range(Seq<IntRun>, bool),
}

/// The value of a task parameter.
#[derive(Clone, Debug)]
pub enum ParamValue {
    Int(i64),
    Float(FloatValue),
    String(String),
    Path(String),
    RangeExpr(RangeExpr),
}

impl View for ParamValue {
    type V = ValueView;

    open spec fn view(&self) -> ValueView {
        match self {
            ParamValue::Int(i) => ValueView::Int(*i),
            ParamValue::Float(f) => ValueView::Float(f.bits, f.text@),
            ParamValue::String(s) => ValueView::Str(s@),
            ParamValue::Path(s) => ValueView::Path(s@),
            ParamValue::RangeExpr(r) => ValueView::Range(r.runs(), r.contiguous_display()),
        }
    }
}

impl ParamValue {
    pub open spec fn wf(&self) -> bool {
        match self {
            ParamValue::RangeExpr(r) => r.wf(),
            _ => true,
        }
    }

    /// A copy of this value.
    pub fn copy(&self) -> (r: ParamValue)
        ensures
            r@ == self@,
            self.wf() ==> r.wf(),
    {
        match self {
            ParamValue::Int(i) => ParamValue::Int(*i),
            ParamValue::Float(f) => ParamValue::Float(FloatValue { bits: f.bits, text: f.text.clone() }),
            ParamValue::String(s) => ParamValue::String(s.clone()),
            ParamValue::Path(s) => ParamValue::Path(s.clone()),
            ParamValue::RangeExpr(r) => ParamValue::RangeExpr(r.copy()),
        }
    }
}

/// Equality of parameter values as the parameter space compares them:
/// integers and range expressions by value, floats by IEEE-754 equality,
/// and strings and paths by their text (a string equals a path of the
/// same text).
pub open spec fn value_view_eq(a: ValueView, b: ValueView) -> bool {
    match (a, b) {
        (ValueView::Int(x), ValueView::Int(y)) => x == y,
        (ValueView::Float(x, _), ValueView::Float(y, _)) => float_bits_eq(x, y),
        (ValueView::Str(x), ValueView::Str(y)) => x == y,
        (ValueView::Range(x, _), ValueView::Range(y, _)) => x == y,
        (ValueView::Path(x), ValueView::Path(y)) => x == y,
        (ValueView::Str(x), ValueView::Path(y)) => x == y,
        (ValueView::Path(x), ValueView::Str(y)) => x == y,
        _ => false,
    }
}

pub fn value_eq(a: &ParamValue, b: &ParamValue) -> (r: bool)
    ensures
        r == value_view_eq(a@, b@),
{
    match (a, b) {
        (ParamValue::Int(x), ParamValue::Int(y)) => *x == *y,
        (ParamValue::Float(x), ParamValue::Float(y)) => float_eq(x.bits, y.bits),
        (ParamValue::String(x), ParamValue::String(y)) => *x == *y,
        (ParamValue::RangeExpr(x), ParamValue::RangeExpr(y)) => x.same_value(y),
        (ParamValue::Path(x), ParamValue::Path(y)) => *x == *y,
        (ParamValue::String(x), ParamValue::Path(y)) => *x == *y,
        (ParamValue::Path(x), ParamValue::String(y)) => *x == *y,
        _ => false,
    }
}

/// A task parameter value with its type.
#[derive(Clone, Debug)]
pub struct TaskParameterValue {
    pub param_type: TaskParameterType,
    pub value: ParamValue,
}

impl View for TaskParameterValue {
    type V = (TaskParameterType, ValueView);

    open spec fn view(&self) -> (TaskParameterType, ValueView) {
        (self.param_type, self.value@)
    }
}

impl TaskParameterValue {
    pub fn copy(&self) -> (r: TaskParameterValue)
        ensures
            r@ == self@,
            self.value.wf() ==> r.value.wf(),
    {
        TaskParameterValue { param_type: self.param_type, value: self.value.copy() }
    }
}

/// The map of a list of named entries; a later entry of a name replaces
/// an earlier one.
pub open spec fn entries_map(entries: Seq<(String, TaskParameterValue)>) -> Map<Seq<char>, (TaskParameterType, ValueView)>
    decreases entries.len(),
{
    if entries.len() == 0 {
        Map::empty()
    } else {
        entries_map(entries.drop_last()).insert(entries.last().0@, entries.last().1@)
    }
}

pub open spec fn distinct_names(entries: Seq<(String, TaskParameterValue)>) -> bool {
    forall|i: int, j: int| 0 <= i < j < entries.len() ==> entries[i].0@ != entries[j].0@
}

/// A set of named task parameter values: at most one value per name.
#[derive(Debug)]
pub struct TaskParameterSet {
    entries: Vec<(String, TaskParameterValue)>,
}

proof fn lemma_entries_map_domain(entries: Seq<(String, TaskParameterValue)>, k: Seq<char>)
    ensures
        entries_map(entries).contains_key(k) <==> exists|i: int| 0 <= i < entries.len() && #[trigger] entries[i].0@ == k,
    decreases entries.len(),
{
    if entries.len() > 0 {
        lemma_entries_map_domain(entries.drop_last(), k);
        if entries_map(entries).contains_key(k) && entries.last().0@ != k {
            let i = choose|i: int| 0 <= i < entries.drop_last().len() && #[trigger] entries.drop_last()[i].0@ == k;
            assert(entries[i].0@ == k);
        }
        if exists|i: int| 0 <= i < entries.len() && #[trigger] entries[i].0@ == k {
            let i = choose|i: int| 0 <= i < entries.len() && #[trigger] entries[i].0@ == k;
            if i < entries.len() - 1 {
                assert(entries.drop_last()[i].0@ == k);
            }
        }
    }
}

proof fn lemma_entries_map_value(entries: Seq<(String, TaskParameterValue)>, i: int)
    requires
        distinct_names(entries),
        0 <= i < entries.len(),
    ensures
        entries_map(entries).contains_key(entries[i].0@),
        entries_map(entries)[entries[i].0@] == entries[i].1@,
    decreases entries.len(),
{
    if i < entries.len() - 1 {
        lemma_entries_map_value(entries.drop_last(), i);
        assert(entries.drop_last()[i] == entries[i]);
    }
}

proof fn lemma_entries_map_len(entries: Seq<(String, TaskParameterValue)>)
    requires
        distinct_names(entries),
    ensures
        entries_map(entries).dom().finite(),
        entries_map(entries).len() == entries.len(),
    decreases entries.len(),
{
    if entries.len() > 0 {
        let init = entries.drop_last();
        lemma_entries_map_len(init);
        lemma_entries_map_domain(init, entries.last().0@);
        if entries_map(init).contains_key(entries.last().0@) {
            let i = choose|i: int| 0 <= i < init.len() && #[trigger] init[i].0@ == entries.last().0@;
            assert(entries[i].0@ == entries[entries.len() - 1].0@);
        }
    }
}

impl View for TaskParameterSet {
    type V = Map<Seq<char>, (TaskParameterType, ValueView)>;

    closed spec fn view(&self) -> Map<Seq<char>, (TaskParameterType, ValueView)> {
        entries_map(self.entries@)
    }
}

impl TaskParameterSet {
    #[verifier::type_invariant]
    spec fn inv(&self) -> bool {
        self.wf()
    }

    /// Every set is well formed.
    pub fn valid(&self)
        ensures
            self.wf(),
    {
        proof {
            use_type_invariant(self);
        }
    }

    pub closed spec fn wf(&self) -> bool {
        &&& distinct_names(self.entries@)
        &&& forall|i: int| 0 <= i < self.entries@.len() ==> (#[trigger] self.entries@[i]).1.value.wf()
    }

    /// The empty set.
    pub fn new() -> (s: TaskParameterSet)
        ensures
            s@ == Map::<Seq<char>, (TaskParameterType, ValueView)>::empty(),
            s.wf(),
    {
        TaskParameterSet { entries: Vec::new() }
    }

    /// Number of parameters in the set.
    pub fn len(&self) -> (n: usize)
        ensures
            n == self@.len(),
    {
        proof {
            use_type_invariant(self);
        }
        proof {
            lemma_entries_map_len(self.entries@);
        }
        self.entries.len()
    }

    pub fn is_empty(&self) -> (b: bool)
        ensures
            b == (self@.len() == 0),
    {
        proof {
            use_type_invariant(self);
        }
        proof {
            lemma_entries_map_len(self.entries@);
        }
        self.entries.len() == 0
    }

    fn position(&self, name: &String) -> (r: Option<usize>)
        ensures
            r matches Some(i) ==> i < self.entries@.len() && self.entries@[i as int].0@ == name@,
            r is None ==> forall|i: int| 0 <= i < self.entries@.len() ==> (#[trigger] self.entries@[i]).0@ != name@,
    {
        let mut i: usize = 0;
        while i < self.entries.len()
            invariant
                0 <= i <= self.entries@.len(),
                forall|j: int| 0 <= j < i ==> (#[trigger] self.entries@[j]).0@ != name@,
            decreases self.entries@.len() - i,
        {
            if self.entries[i].0 == *name {
                return Some(i);
            }
            i = i + 1;
        }
        None
    }

    /// The value of the parameter `name`, if the set has one.
    pub fn get(&self, name: &str) -> (r: Option<&TaskParameterValue>)
        ensures
            r is Some <==> self@.contains_key(name@),
            r matches Some(v) ==> self@[name@] == v@ && v.value.wf(),
    {
        proof {
            use_type_invariant(self);
        }
        let key = String::from_str(name);
        let p = self.position(&key);
        proof {
            lemma_entries_map_domain(self.entries@, name@);
        }
        match p {
            Some(i) => {
                proof {
                    lemma_entries_map_value(self.entries@, i as int);
                }
                Some(&self.entries[i].1)
            },
            None => None,
        }
    }

    /// Whether the set has a value for `name`.
    pub fn contains_key(&self, name: &str) -> (b: bool)
        ensures
            b == self@.contains_key(name@),
    {
        self.get(name).is_some()
    }

    /// Sets the value of `name`, replacing any earlier value of that name.
    pub fn insert(&mut self, name: String, value: TaskParameterValue)
        ensures
            final(self).wf(),
            final(self)@ == old(self)@.insert(name@, value@),
    {
        proof {
            use_type_invariant(&*self);
        }
        if let ParamValue::RangeExpr(r) = &value.value {
            r.valid();
        }
        let p = self.position(&name);
        let ghost old_entries = self.entries@;
        let mut entries: Vec<(String, TaskParameterValue)> = Vec::new();
        std::mem::swap(&mut entries, &mut self.entries);
        match p {
            Some(i) => {
                entries.set(i, (name, value));
                proof {
                    let e = entries@;
                    assert(distinct_names(e)) by {
                        assert forall|a: int, b: int| 0 <= a < b < e.len() implies e[a].0@ != e[b].0@ by {
                            if a != i && b != i {
                                assert(e[a] == old_entries[a] && e[b] == old_entries[b]);
                            } else if a == i {
                                assert(e[b] == old_entries[b]);
                                assert(old_entries[a].0@ != old_entries[b].0@);
                            } else {
                                assert(e[a] == old_entries[a]);
                                assert(old_entries[a].0@ != old_entries[b].0@);
                            }
                        }
                    }
                    assert forall|k: Seq<char>| #![auto] entries_map(e).contains_key(k) == entries_map(old_entries).insert(name@, value@).contains_key(k) by {
                        lemma_entries_map_domain(e, k);
                        lemma_entries_map_domain(old_entries, k);
                        if k == name@ {
                            assert(e[i as int].0@ == k);
                        }
                        if exists|j: int| 0 <= j < old_entries.len() && #[trigger] old_entries[j].0@ == k {
                            let j = choose|j: int| 0 <= j < old_entries.len() && #[trigger] old_entries[j].0@ == k;
                            if j != i {
                                assert(e[j] == old_entries[j]);
                            }
                        }
                        if exists|j: int| 0 <= j < e.len() && #[trigger] e[j].0@ == k {
                            let j = choose|j: int| 0 <= j < e.len() && #[trigger] e[j].0@ == k;
                            if j != i {
                                assert(e[j] == old_entries[j]);
                            }
                        }
                    }
                    assert forall|k: Seq<char>| #![auto] entries_map(e).contains_key(k) implies entries_map(e)[k] == entries_map(old_entries).insert(name@, value@)[k] by {
                        lemma_entries_map_domain(e, k);
                        let j = choose|j: int| 0 <= j < e.len() && #[trigger] e[j].0@ == k;
                        lemma_entries_map_value(e, j);
                        if j != i {
                            assert(e[j] == old_entries[j]);
                            lemma_entries_map_value(old_entries, j);
                        }
                    }
                    assert(entries_map(e) =~= entries_map(old_entries).insert(name@, value@));
                    assert forall|x: int| 0 <= x < e.len() implies (#[trigger] e[x]).1.value.wf() by {
                        if x != i {
                            assert(e[x] == old_entries[x]);
                        }
                    }
                }
            },
            None => {
                entries.push((name, value));
                proof {
                    let e = entries@;
                    assert(e.drop_last() =~= old_entries);
                    assert(distinct_names(e)) by {
                        assert forall|a: int, b: int| 0 <= a < b < e.len() implies e[a].0@ != e[b].0@ by {
                            if b < e.len() - 1 {
                                assert(e[a] == old_entries[a] && e[b] == old_entries[b]);
                            } else {
                                assert(e[a] == old_entries[a]);
                            }
                        }
                    }
                    assert forall|x: int| 0 <= x < e.len() implies (#[trigger] e[x]).1.value.wf() by {
                        if x < e.len() - 1 {
                            assert(e[x] == old_entries[x]);
                        }
                    }
                }
            },
        }
        self.entries = entries;
    }

    /// The names in the set, in the order they were first set.
    pub fn names(&self) -> (r: Vec<String>)
        ensures
            r@.len() == self@.len(),
            forall|i: int| 0 <= i < r@.len() ==> self@.contains_key(#[trigger] r@[i]@),
            forall|i: int, j: int| 0 <= i < j < r@.len() ==> r@[i]@ != r@[j]@,
    {
        proof {
            use_type_invariant(self);
        }
        let mut out: Vec<String> = Vec::new();
        let mut i: usize = 0;
        proof {
            lemma_entries_map_len(self.entries@);
        }
        while i < self.entries.len()
            invariant
                self.wf(),
                0 <= i <= self.entries@.len(),
                out@.len() == i,
                forall|j: int| 0 <= j < i ==> (#[trigger] out@[j])@ == self.entries@[j].0@,
            decreases self.entries@.len() - i,
        {
            out.push(self.entries[i].0.clone());
            i = i + 1;
        }
        proof {
            assert forall|j: int| 0 <= j < out@.len() implies self@.contains_key(#[trigger] out@[j]@) by {
                lemma_entries_map_value(self.entries@, j);
            }
        }
        out
    }

    /// The entries in the order their names were first set.
    pub closed spec fn items(&self) -> Seq<(Seq<char>, (TaskParameterType, ValueView))> {
        self.entries@.map_values(|e: (String, TaskParameterValue)| (e.0@, e.1@))
    }

    /// The entries list and the map agree: the names are distinct and the
    /// map holds exactly the entries.
    pub proof fn lemma_items(&self)
        requires
            self.wf(),
        ensures
            forall|i: int, j: int| 0 <= i < j < self.items().len() ==> self.items()[i].0 != self.items()[j].0,
            forall|i: int| 0 <= i < self.items().len() ==> #[trigger] self@.contains_key(self.items()[i].0) && self@[self.items()[i].0] == self.items()[i].1,
            forall|k: Seq<char>| #[trigger] self@.contains_key(k) ==> exists|i: int| 0 <= i < self.items().len() && self.items()[i].0 == k,
            self@.len() == self.items().len(),
            self@.dom().finite(),
    {
        lemma_entries_map_len(self.entries@);
        assert forall|i: int| 0 <= i < self.items().len() implies #[trigger] self@.contains_key(self.items()[i].0) && self@[self.items()[i].0] == self.items()[i].1 by {
            lemma_entries_map_value(self.entries@, i);
        }
        assert forall|k: Seq<char>| #[trigger] self@.contains_key(k) implies exists|i: int| 0 <= i < self.items().len() && self.items()[i].0 == k by {
            lemma_entries_map_domain(self.entries@, k);
            let i = choose|i: int| 0 <= i < self.entries@.len() && #[trigger] self.entries@[i].0@ == k;
            assert(self.items()[i].0 == k);
        }
    }

    /// Entry `i`.
    pub fn entry_at(&self, i: usize) -> (r: (&String, &TaskParameterValue))
        requires
            i < self.items().len(),
        ensures
            r.0@ == self.items()[i as int].0,
            r.1@ == self.items()[i as int].1,
            self.wf() ==> r.1.value.wf(),
    {
        proof {
            use_type_invariant(self);
        }
        let e = &self.entries[i];
        (&e.0, &e.1)
    }

    /// Number of entries.
    pub fn entry_count(&self) -> (n: usize)
        ensures
            n == self.items().len(),
    {
        self.entries.len()
    }

    /// Adds every entry of `other` to this set.
    pub fn extend_from(&mut self, other: &TaskParameterSet)
        ensures
            final(self).wf(),
            final(self)@ == old(self)@.union_prefer_right(other@),
    {
        proof {
            use_type_invariant(&*self);
            use_type_invariant(other);
        }
        let mut i: usize = 0;
        let ghost start = self@;
        while i < other.entries.len()
            invariant
                self.wf(),
                other.wf(),
                0 <= i <= other.entries@.len(),
                self@ == start.union_prefer_right(entries_map(other.entries@.take(i as int))),
            decreases other.entries@.len() - i,
        {
            let name = other.entries[i].0.clone();
            let v = other.entries[i].1.copy();
            self.insert(name, v);
            proof {
                assert(other.entries@.take(i as int + 1).drop_last() =~= other.entries@.take(i as int));
                assert(self@ =~= start.union_prefer_right(entries_map(other.entries@.take(i as int + 1))));
            }
            i = i + 1;
        }
        proof {
            assert(other.entries@.take(i as int) =~= other.entries@);
        }
    }
}

impl Clone for TaskParameterSet {
    fn clone(&self) -> (r: TaskParameterSet) {
        let mut r = TaskParameterSet::new();
        r.extend_from(self);
        r
    }
}

} // verus!
