use vstd::prelude::*;

verus! {

/// A value held in the context store. Each variant carries a value of one
/// of the types that the store accepts: a closed set of eleven types, the
/// integer, boolean and string types that tasks exchange. Floating-point
/// numbers and types defined by the store's users cannot be stored; only
/// values whose type has a variant here can.
#[derive(Debug)]
pub enum Value {
    Bool(bool),
    I32(i32),
    I64(i64),
    U32(u32),
    U64(u64),
    Usize(usize),
    Str(String),
    StrList(Vec<String>),
    U8(u8),
    StaticStr(&'static str),
    I32List(Vec<i32>),
}

/// The type of a stored value: the store hands a value back only to a
/// reader that asks for the type it was stored with.
#[derive(Debug, Clone, Copy, PartialEq, Eq, Structural)]
pub enum Kind {
    Bool,
    I32,
    I64,
    U32,
    U64,
    Usize,
    Str,
    StrList,
    U8,
    StaticStr,
    I32List,
}

/// The mathematical model of a stored value.
pub enum ValueView {
    Bool(bool),
    I32(i32),
    I64(i64),
    U32(u32),
    U64(u64),
    Usize(usize),
    Str(Seq<char>),
    StrList(Seq<Seq<char>>),
    U8(u8),
    StaticStr(Seq<char>),
    I32List(Seq<i32>),
}

impl ValueView {
    pub open spec fn kind(self) -> Kind {
        match self {
            ValueView::Bool(_) => Kind::Bool,
            ValueView::I32(_) => Kind::I32,
            ValueView::I64(_) => Kind::I64,
            ValueView::U32(_) => Kind::U32,
            ValueView::U64(_) => Kind::U64,
            ValueView::Usize(_) => Kind::Usize,
            ValueView::Str(_) => Kind::Str,
            ValueView::StrList(_) => Kind::StrList,
            ValueView::U8(_) => Kind::U8,
            ValueView::StaticStr(_) => Kind::StaticStr,
            ValueView::I32List(_) => Kind::I32List,
        }
    }
}

/// The model of a list of strings: the sequence of their contents.
pub open spec fn strings_view(v: Seq<String>) -> Seq<Seq<char>> {
    v.map_values(|s: String| s@)
}

impl View for Value {
    type V = ValueView;

    open spec fn view(&self) -> ValueView {
        match self {
            Value::Bool(b) => ValueView::Bool(*b),
            Value::I32(x) => ValueView::I32(*x),
            Value::I64(x) => ValueView::I64(*x),
            Value::U32(x) => ValueView::U32(*x),
            Value::U64(x) => ValueView::U64(*x),
            Value::Usize(x) => ValueView::Usize(*x),
            Value::Str(s) => ValueView::Str(s@),
            Value::StrList(v) => ValueView::StrList(strings_view(v@)),
            Value::U8(x) => ValueView::U8(*x),
            Value::StaticStr(s) => ValueView::StaticStr(s@),
            Value::I32List(v) => ValueView::I32List(v@),
        }
    }
}

/// A type whose values can be kept in the context store.
///
/// `model` is the stored form of a value; `kind` is the type tag under which
/// it is stored. Reading a stored value as some type succeeds exactly when
/// the stored value's tag is that type's tag.
pub trait ContextValue: Sized {
    spec fn model(&self) -> ValueView;

    spec fn kind() -> Kind;

    /// A value of this type is stored under this type's tag.
    proof fn lemma_model_kind(&self)
        ensures
            self.model().kind() == Self::kind(),
    ;

    fn into_value(self) -> (v: Value)
        ensures
            v@ == self.model(),
    ;

    fn from_ref(v: &Value) -> (r: Option<&Self>)
        ensures
            r is Some <==> v@.kind() == Self::kind(),
            r matches Some(x) ==> x.model() == v@,
    ;

    fn from_mut(v: &mut Value) -> (r: Option<&mut Self>)
        ensures
            r is Some <==> old(v)@.kind() == Self::kind(),
            r matches Some(x) ==> x.model() == old(v)@ && final(v)@ == final(x).model(),
            r is None ==> *final(v) == *old(v),
    ;

    fn from_value(v: Value) -> (r: Option<Self>)
        ensures
            r is Some <==> v@.kind() == Self::kind(),
            r matches Some(x) ==> x.model() == v@,
    ;

    fn duplicate(&self) -> (r: Self)
        ensures
            r.model() == self.model(),
    ;
}

impl ContextValue for bool {
    open spec fn model(&self) -> ValueView {
        ValueView::Bool(*self)
    }

    open spec fn kind() -> Kind {
        Kind::Bool
    }

    proof fn lemma_model_kind(&self) {
    }

    fn into_value(self) -> (v: Value) {
        Value::Bool(self)
    }

    fn from_ref(v: &Value) -> (r: Option<&Self>) {
        match v {
            Value::Bool(x) => Some(x),
            _ => None,
        }
    }

    fn from_mut(v: &mut Value) -> (r: Option<&mut Self>) {
        match v {
            Value::Bool(x) => Some(x),
            _ => None,
        }
    }

    fn from_value(v: Value) -> (r: Option<Self>) {
        match v {
            Value::Bool(x) => Some(x),
            _ => None,
        }
    }

    fn duplicate(&self) -> (r: Self) {
        *self
    }
}

impl ContextValue for i32 {
    open spec fn model(&self) -> ValueView {
        ValueView::I32(*self)
    }

    open spec fn kind() -> Kind {
        Kind::I32
    }

    proof fn lemma_model_kind(&self) {
    }

    fn into_value(self) -> (v: Value) {
        Value::I32(self)
    }

    fn from_ref(v: &Value) -> (r: Option<&Self>) {
        match v {
            Value::I32(x) => Some(x),
            _ => None,
        }
    }

    fn from_mut(v: &mut Value) -> (r: Option<&mut Self>) {
        match v {
            Value::I32(x) => Some(x),
            _ => None,
        }
    }

    fn from_value(v: Value) -> (r: Option<Self>) {
        match v {
            Value::I32(x) => Some(x),
            _ => None,
        }
    }

    fn duplicate(&self) -> (r: Self) {
        *self
    }
}

impl ContextValue for i64 {
    open spec fn model(&self) -> ValueView {
        ValueView::I64(*self)
    }

    open spec fn kind() -> Kind {
        Kind::I64
    }

    proof fn lemma_model_kind(&self) {
    }

    fn into_value(self) -> (v: Value) {
        Value::I64(self)
    }

    fn from_ref(v: &Value) -> (r: Option<&Self>) {
        match v {
            Value::I64(x) => Some(x),
            _ => None,
        }
    }

    fn from_mut(v: &mut Value) -> (r: Option<&mut Self>) {
        match v {
            Value::I64(x) => Some(x),
            _ => None,
        }
    }

    fn from_value(v: Value) -> (r: Option<Self>) {
        match v {
            Value::I64(x) => Some(x),
            _ => None,
        }
    }

    fn duplicate(&self) -> (r: Self) {
        *self
    }
}

impl ContextValue for u32 {
    open spec fn model(&self) -> ValueView {
        ValueView::U32(*self)
    }

    open spec fn kind() -> Kind {
        Kind::U32
    }

    proof fn lemma_model_kind(&self) {
    }

    fn into_value(self) -> (v: Value) {
        Value::U32(self)
    }

    fn from_ref(v: &Value) -> (r: Option<&Self>) {
        match v {
            Value::U32(x) => Some(x),
            _ => None,
        }
    }

    fn from_mut(v: &mut Value) -> (r: Option<&mut Self>) {
        match v {
            Value::U32(x) => Some(x),
            _ => None,
        }
    }

    fn from_value(v: Value) -> (r: Option<Self>) {
        match v {
            Value::U32(x) => Some(x),
            _ => None,
        }
    }

    fn duplicate(&self) -> (r: Self) {
        *self
    }
}

impl ContextValue for u64 {
    open spec fn model(&self) -> ValueView {
        ValueView::U64(*self)
    }

    open spec fn kind() -> Kind {
        Kind::U64
    }

    proof fn lemma_model_kind(&self) {
    }

    fn into_value(self) -> (v: Value) {
        Value::U64(self)
    }

    fn from_ref(v: &Value) -> (r: Option<&Self>) {
        match v {
            Value::U64(x) => Some(x),
            _ => None,
        }
    }

    fn from_mut(v: &mut Value) -> (r: Option<&mut Self>) {
        match v {
            Value::U64(x) => Some(x),
            _ => None,
        }
    }

    fn from_value(v: Value) -> (r: Option<Self>) {
        match v {
            Value::U64(x) => Some(x),
            _ => None,
        }
    }

    fn duplicate(&self) -> (r: Self) {
        *self
    }
}

impl ContextValue for usize {
    open spec fn model(&self) -> ValueView {
        ValueView::Usize(*self)
    }

    open spec fn kind() -> Kind {
        Kind::Usize
    }

    proof fn lemma_model_kind(&self) {
    }

    fn into_value(self) -> (v: Value) {
        Value::Usize(self)
    }

    fn from_ref(v: &Value) -> (r: Option<&Self>) {
        match v {
            Value::Usize(x) => Some(x),
            _ => None,
        }
    }

    fn from_mut(v: &mut Value) -> (r: Option<&mut Self>) {
        match v {
            Value::Usize(x) => Some(x),
            _ => None,
        }
    }

    fn from_value(v: Value) -> (r: Option<Self>) {
        match v {
            Value::Usize(x) => Some(x),
            _ => None,
        }
    }

    fn duplicate(&self) -> (r: Self) {
        *self
    }
}

impl ContextValue for String {
    open spec fn model(&self) -> ValueView {
        ValueView::Str(self@)
    }

    open spec fn kind() -> Kind {
        Kind::Str
    }

    proof fn lemma_model_kind(&self) {
    }

    fn into_value(self) -> (v: Value) {
        Value::Str(self)
    }

    fn from_ref(v: &Value) -> (r: Option<&Self>) {
        match v {
            Value::Str(x) => Some(x),
            _ => None,
        }
    }

    fn from_mut(v: &mut Value) -> (r: Option<&mut Self>) {
        match v {
            Value::Str(x) => Some(x),
            _ => None,
        }
    }

    fn from_value(v: Value) -> (r: Option<Self>) {
        match v {
            Value::Str(x) => Some(x),
            _ => None,
        }
    }

    fn duplicate(&self) -> (r: Self) {
        self.clone()
    }
}

impl ContextValue for Vec<String> {
    open spec fn model(&self) -> ValueView {
        ValueView::StrList(strings_view(self@))
    }

    open spec fn kind() -> Kind {
        Kind::StrList
    }

    proof fn lemma_model_kind(&self) {
    }

    fn into_value(self) -> (v: Value) {
        Value::StrList(self)
    }

    fn from_ref(v: &Value) -> (r: Option<&Self>) {
        match v {
            Value::StrList(x) => Some(x),
            _ => None,
        }
    }

    fn from_mut(v: &mut Value) -> (r: Option<&mut Self>) {
        match v {
            Value::StrList(x) => Some(x),
            _ => None,
        }
    }

    fn from_value(v: Value) -> (r: Option<Self>) {
        match v {
            Value::StrList(x) => Some(x),
            _ => None,
        }
    }

    fn duplicate(&self) -> (r: Self) {
        let r = self.clone();
        assert(strings_view(r@) =~= strings_view(self@));
        r
    }
}

impl ContextValue for u8 {
    open spec fn model(&self) -> ValueView {
        ValueView::U8(*self)
    }

    open spec fn kind() -> Kind {
        Kind::U8
    }

    proof fn lemma_model_kind(&self) {
    }

    fn into_value(self) -> (v: Value) {
        Value::U8(self)
    }

    fn from_ref(v: &Value) -> (r: Option<&Self>) {
        match v {
            Value::U8(x) => Some(x),
            _ => None,
        }
    }

    fn from_mut(v: &mut Value) -> (r: Option<&mut Self>) {
        match v {
            Value::U8(x) => Some(x),
            _ => None,
        }
    }

    fn from_value(v: Value) -> (r: Option<Self>) {
        match v {
            Value::U8(x) => Some(x),
            _ => None,
        }
    }

    fn duplicate(&self) -> (r: Self) {
        *self
    }
}

impl ContextValue for &'static str {
    open spec fn model(&self) -> ValueView {
        ValueView::StaticStr(self@)
    }

    open spec fn kind() -> Kind {
        Kind::StaticStr
    }

    proof fn lemma_model_kind(&self) {
    }

    fn into_value(self) -> (v: Value) {
        Value::StaticStr(self)
    }

    fn from_ref(v: &Value) -> (r: Option<&Self>) {
        match v {
            Value::StaticStr(x) => Some(x),
            _ => None,
        }
    }

    fn from_mut(v: &mut Value) -> (r: Option<&mut Self>) {
        match v {
            Value::StaticStr(x) => Some(x),
            _ => None,
        }
    }

    fn from_value(v: Value) -> (r: Option<Self>) {
        match v {
            Value::StaticStr(x) => Some(x),
            _ => None,
        }
    }

    fn duplicate(&self) -> (r: Self) {
        *self
    }
}

impl ContextValue for Vec<i32> {
    open spec fn model(&self) -> ValueView {
        ValueView::I32List(self@)
    }

    open spec fn kind() -> Kind {
        Kind::I32List
    }

    proof fn lemma_model_kind(&self) {
    }

    fn into_value(self) -> (v: Value) {
        Value::I32List(self)
    }

    fn from_ref(v: &Value) -> (r: Option<&Self>) {
        match v {
            Value::I32List(x) => Some(x),
            _ => None,
        }
    }

    fn from_mut(v: &mut Value) -> (r: Option<&mut Self>) {
        match v {
            Value::I32List(x) => Some(x),
            _ => None,
        }
    }

    fn from_value(v: Value) -> (r: Option<Self>) {
        match v {
            Value::I32List(x) => Some(x),
            _ => None,
        }
    }

    fn duplicate(&self) -> (r: Self) {
        let r = self.clone();
        assert(r@ =~= self@);
        r
    }
}

} // verus!
