//! Cached values: a payload with a validity flag, and a dynamically typed payload that can be
//! taken back as a concrete type.
use vstd::prelude::*;

verus! {

/// A cached value. An invalid value is stale: its data, if any, is the last answer seen and is
/// kept so that it can be shown until a fresh one arrives.
#[derive(Clone, Debug, PartialEq, Eq)]
pub struct Value<T> {
    valid: bool,
    data: Option<T>,
}

impl<T> View for Value<T> {
    /// Validity and data.
    type V = (bool, Option<T>);

    closed spec fn view(&self) -> (bool, Option<T>) {
        (self.valid, self.data)
    }
}

impl<T> Value<T> {
    /// A value without data is never valid.
    pub open spec fn wf(&self) -> bool {
        self@.1.is_none() ==> !self@.0
    }

    /// A valid value holding `data`.
    pub fn new(data: T) -> (r: Self)
        ensures
            r@ == (true, Some(data)),
            r.wf(),
    {
        Value { data: Some(data), valid: true }
    }

    /// The value held before anything was fetched: no data, not valid.
    pub fn empty() -> (r: Self)
        ensures
            r@ == (false, None::<T>),
            r.wf(),
    {
        Value { valid: false, data: None }
    }

    /// The data, valid or not.
    pub fn data(&self) -> (r: Option<&T>)
        ensures
            r == match self@.1 {
                Some(d) => Some(&d),
                None => None::<&T>,
            },
    {
        self.data.as_ref()
    }

    /// Whether the data is usable as it is.
    pub fn valid(&self) -> (r: bool)
        ensures
            r == self@.0,
    {
        self.valid
    }

    /// Marks the value stale. The data stays.
    pub fn invalidate(&mut self)
        ensures
            final(self)@ == (false, old(self)@.1),
            old(self).wf() ==> final(self).wf(),
    {
        self.valid = false;
    }
}

impl<T> Default for Value<T> {
    fn default() -> (r: Self)
        ensures
            r@ == (false, None::<T>),
    {
        Value::empty()
    }
}

/// The shape of a dynamic payload, with bytes as a sequence.
pub enum DynamicView {
    Unit,
    Flag(bool),
    Number(u64),
    Signed(i64),
    Bytes(Seq<u8>),
}

/// A payload of one of the types the cache can hold.
#[derive(Clone, Debug, PartialEq, Eq)]
pub enum Dynamic {
    Unit,
    Flag(bool),
    Number(u64),
    Signed(i64),
    Bytes(Vec<u8>),
}

impl View for Dynamic {
    type V = DynamicView;

    open spec fn view(&self) -> DynamicView {
        match self {
            Dynamic::Unit => DynamicView::Unit,
            Dynamic::Flag(b) => DynamicView::Flag(*b),
            Dynamic::Number(n) => DynamicView::Number(*n),
            Dynamic::Signed(n) => DynamicView::Signed(*n),
            Dynamic::Bytes(v) => DynamicView::Bytes(v@),
        }
    }
}

/// The view of an optional payload.
pub open spec fn payload_view(d: Option<Dynamic>) -> Option<DynamicView> {
    match d {
        Some(x) => Some(x@),
        None => None,
    }
}

/// Whether two cached values hold the same thing: same validity, same payload.
pub open spec fn same_value(a: (bool, Option<Dynamic>), b: (bool, Option<Dynamic>)) -> bool {
    a.0 == b.0 && payload_view(a.1) == payload_view(b.1)
}

fn same_bytes(a: &Vec<u8>, b: &Vec<u8>) -> (r: bool)
    ensures
        r == (a@ == b@),
{
    if a.len() != b.len() {
        return false;
    }
    let mut i: usize = 0;
    while i < a.len()
        invariant
            a.len() == b.len(),
            i <= a.len(),
            forall|j: int| 0 <= j < i ==> a@[j] == b@[j],
        decreases a.len() - i,
    {
        if a[i] != b[i] {
            return false;
        }
        i = i + 1;
    }
    assert(a@ =~= b@);
    true
}

impl Dynamic {
    /// Whether two payloads are the same.
    pub fn same(&self, other: &Dynamic) -> (r: bool)
        ensures
            r == (self@ == other@),
    {
        match (self, other) {
            (Dynamic::Unit, Dynamic::Unit) => true,
            (Dynamic::Flag(a), Dynamic::Flag(b)) => *a == *b,
            (Dynamic::Number(a), Dynamic::Number(b)) => *a == *b,
            (Dynamic::Signed(a), Dynamic::Signed(b)) => *a == *b,
            (Dynamic::Bytes(a), Dynamic::Bytes(b)) => same_bytes(a, b),
            _ => false,
        }
    }
}

impl Value<Dynamic> {
    /// Whether two values hold the same thing.
    pub fn same_as(&self, other: &Value<Dynamic>) -> (r: bool)
        ensures
            r == same_value(self@, other@),
    {
        if self.valid != other.valid {
            return false;
        }
        match (&self.data, &other.data) {
            (None, None) => true,
            (Some(a), Some(b)) => a.same(b),
            _ => false,
        }
    }

    /// The value with its payload taken as a `T`. Fails exactly when there is a payload and it
    /// is not of type `T`; validity is kept.
    pub fn downcast<T: Downcast>(self) -> (r: Option<Value<T>>)
        ensures
            r.is_some() <==> (self@.1 matches Some(d) ==> T::accepts(d@)),
            r matches Some(v) ==> v@.0 == self@.0 && (v@.1 is None <==> self@.1 is None) && (
            forall|t: T| v@.1 == Some(t) ==> (self@.1 matches Some(d) && t.erased() == d@)),
    {
        match self.data {
            None => Some(Value { valid: self.valid, data: None }),
            Some(d) => match T::take(d) {
                Some(t) => Some(Value { valid: self.valid, data: Some(t) }),
                None => None,
            },
        }
    }
}

/// A concrete type that a dynamic payload can hold.
pub trait Downcast: Sized {
    /// Whether a payload of this shape holds a value of this type.
    spec fn accepts(d: DynamicView) -> bool;

    /// The payload that holds this value.
    spec fn erased(&self) -> DynamicView;

    fn take(d: Dynamic) -> (r: Option<Self>)
        ensures
            r.is_some() <==> Self::accepts(d@),
            r matches Some(t) ==> t.erased() == d@,
    ;
}

impl Downcast for () {
    open spec fn accepts(d: DynamicView) -> bool {
        d is Unit
    }

    open spec fn erased(&self) -> DynamicView {
        DynamicView::Unit
    }

    fn take(d: Dynamic) -> (r: Option<()>) {
        match d {
            Dynamic::Unit => Some(()),
            _ => None,
        }
    }
}

impl Downcast for bool {
    open spec fn accepts(d: DynamicView) -> bool {
        d is Flag
    }

    open spec fn erased(&self) -> DynamicView {
        DynamicView::Flag(*self)
    }

    fn take(d: Dynamic) -> (r: Option<bool>) {
        match d {
            Dynamic::Flag(b) => Some(b),
            _ => None,
        }
    }
}

impl Downcast for u64 {
    open spec fn accepts(d: DynamicView) -> bool {
        d is Number
    }

    open spec fn erased(&self) -> DynamicView {
        DynamicView::Number(*self)
    }

    fn take(d: Dynamic) -> (r: Option<u64>) {
        match d {
            Dynamic::Number(n) => Some(n),
            _ => None,
        }
    }
}

impl Downcast for i64 {
    open spec fn accepts(d: DynamicView) -> bool {
        d is Signed
    }

    open spec fn erased(&self) -> DynamicView {
        DynamicView::Signed(*self)
    }

    fn take(d: Dynamic) -> (r: Option<i64>) {
        match d {
            Dynamic::Signed(n) => Some(n),
            _ => None,
        }
    }
}

impl Downcast for Vec<u8> {
    open spec fn accepts(d: DynamicView) -> bool {
        d is Bytes
    }

    open spec fn erased(&self) -> DynamicView {
        DynamicView::Bytes(self@)
    }

    fn take(d: Dynamic) -> (r: Option<Vec<u8>>) {
        match d {
            Dynamic::Bytes(v) => Some(v),
            _ => None,
        }
    }
}

} // verus!
