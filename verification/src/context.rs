use vstd::prelude::*;
use vstd::string::*;

use crate::error::GraphError;
use crate::value::{strings_view, ContextValue, Value, ValueView};

verus! {

/// The key under which `with_data` keeps its value.
pub open spec fn legacy_key() -> Seq<char> {
    "__legacy_data"@
}

/// A key-value store through which tasks share data. Each value keeps the
/// type it was stored with, and is handed back only to a reader that asks
/// for that type.
#[derive(Debug)]
pub struct ExtendedContext {
    store: Vec<(String, Value)>,
}

impl ExtendedContext {
    /// The keys in the order in which the store holds them.
    pub closed spec fn key_seq(&self) -> Seq<Seq<char>> {
        self.store@.map_values(|e: (String, Value)| e.0@)
    }

    /// Every key occurs once.
    pub closed spec fn wf(&self) -> bool {
        self.key_seq().no_duplicates()
    }

    /// The contents of the store: each key with the model of its value.
    pub closed spec fn contents(&self) -> Map<Seq<char>, ValueView> {
        Map::new(
            |k: Seq<char>| self.key_seq().contains(k),
            |k: Seq<char>| self.store@[self.key_seq().index_of(k)].1@,
        )
    }

    proof fn lemma_position(&self, i: int)
        requires
            self.wf(),
            0 <= i < self.store@.len(),
        ensures
            self.key_seq()[i] == self.store@[i].0@,
            self.key_seq().index_of(self.store@[i].0@) == i,
            self.contents().contains_key(self.store@[i].0@),
            self.contents()[self.store@[i].0@] == self.store@[i].1@,
    {
        let k = self.store@[i].0@;
        assert(self.key_seq()[i] == k);
        assert(self.key_seq().contains(k));
        let j = self.key_seq().index_of(k);
        assert(self.key_seq()[j] == k);
        assert(j == i);
    }
}

impl View for ExtendedContext {
    type V = Map<Seq<char>, ValueView>;

    closed spec fn view(&self) -> Map<Seq<char>, ValueView> {
        self.contents()
    }
}

impl ExtendedContext {
    /// The position of `key` in the store, if it is there.
    fn find(&self, key: &str) -> (r: Option<usize>)
        requires
            self.wf(),
        ensures
            r is Some <==> self@.contains_key(key@),
            r matches Some(i) ==> i < self.store@.len() && self.store@[i as int].0@ == key@,
    {
        let wanted = key.to_owned();
        let n = self.store.len();
        let mut i: usize = 0;
        while i < n
            invariant
                self.wf(),
                n == self.store@.len(),
                i <= n,
                wanted@ == key@,
                forall|j: int| 0 <= j < i ==> self.key_seq()[j] != key@,
            decreases n - i,
        {
            if self.store[i].0 == wanted {
                proof {
                    self.lemma_position(i as int);
                }
                return Some(i);
            }
            i = i + 1;
        }
        proof {
            assert(!self.key_seq().contains(key@));
        }
        None
    }

    /// Create a new empty extended context
    pub fn new() -> (r: Self)
        ensures
            r.wf(),
            r@ == Map::<Seq<char>, ValueView>::empty(),
    {
        let r = ExtendedContext { store: Vec::new() };
        assert(r@ =~= Map::<Seq<char>, ValueView>::empty());
        r
    }

    /// Set a value in the key-value store, replacing what the key held.
    pub fn set<T: ContextValue>(&mut self, key: &str, value: T)
        requires
            old(self).wf(),
        ensures
            final(self).wf(),
            final(self)@ == old(self)@.insert(key@, value.model()),
    {
        let ghost old_self = *self;
        let v = value.into_value();
        match self.find(key) {
            Some(i) => {
                let k = key.to_owned();
                self.store.set(i, (k, v));
                proof {
                    old_self.lemma_position(i as int);
                    assert(self.key_seq() =~= old_self.key_seq());
                    let m = old_self@.insert(key@, value.model());
                    assert forall|k2: Seq<char>| #[trigger] self@.contains_key(k2) implies self@[k2] == m[k2] by {
                        let j = self.key_seq().index_of(k2);
                        self.lemma_position(j);
                    }
                    assert(self@ =~= m);
                }
            }
            None => {
                let k = key.to_owned();
                self.store.push((k, v));
                proof {
                    let n = old_self.store@.len() as int;
                    assert(self.key_seq() =~= old_self.key_seq().push(key@));
                    let m = old_self@.insert(key@, value.model());
                    assert forall|k2: Seq<char>| #[trigger] self@.contains_key(k2) <==> m.contains_key(k2) by {
                        if self@.contains_key(k2) && k2 != key@ {
                            let j = self.key_seq().index_of(k2);
                            assert(old_self.key_seq()[j] == k2);
                        }
                        if k2 == key@ {
                            assert(self.key_seq()[n] == k2);
                        }
                        if old_self@.contains_key(k2) {
                            let j = old_self.key_seq().index_of(k2);
                            assert(self.key_seq()[j] == k2);
                        }
                    }
                    assert forall|k2: Seq<char>| #[trigger] self@.contains_key(k2) implies self@[k2] == m[k2] by {
                        let j = self.key_seq().index_of(k2);
                        self.lemma_position(j);
                        if j < n {
                            old_self.lemma_position(j);
                        }
                    }
                    assert(self@ =~= m);
                }
            }
        }
    }

    /// Get a value from the key-value store with type checking.
    /// Returns None if the key doesn't exist or if the type doesn't match.
    pub fn get<T: ContextValue>(&self, key: &str) -> (r: Option<&T>)
        requires
            self.wf(),
        ensures
            r is Some <==> self@.contains_key(key@) && self@[key@].kind() == T::kind(),
            r matches Some(x) ==> x.model() == self@[key@],
    {
        match self.find(key) {
            Some(i) => {
                proof {
                    self.lemma_position(i as int);
                }
                T::from_ref(&self.store[i].1)
            }
            None => None,
        }
    }

    /// Check if a key exists in the store.
    pub fn contains_key(&self, key: &str) -> (r: bool)
        requires
            self.wf(),
        ensures
            r == self@.contains_key(key@),
    {
        self.find(key).is_some()
    }
}

impl ExtendedContext {
    /// Get a mutable reference to a value from the key-value store with type checking.
    /// Returns None if the key doesn't exist or if the type doesn't match.
    pub fn get_mut<T: ContextValue>(&mut self, key: &str) -> (r: Option<&mut T>)
        requires
            old(self).wf(),
        ensures
            r is Some <==> old(self)@.contains_key(key@) && old(self)@[key@].kind() == T::kind(),
            r matches Some(x) ==> x.model() == old(self)@[key@] && final(self)@ == old(self)@.insert(
                key@,
                final(x).model(),
            ),
            r is None ==> final(self)@ == old(self)@,
            final(self).wf(),
    {
        match self.find(key) {
            Some(i) => {
                let ghost old_self = *self;
                proof {
                    old_self.lemma_position(i as int);
                }
                proof {
                    lemma_replace_value_any(old_self, i as int);
                }
                let entry = &mut self.store[i];
                let r = T::from_mut(&mut entry.1);
                r
            }
            None => None,
        }
    }
}

impl ExtendedContext {
    /// Remove a value from the key-value store.
    /// The key is removed whatever the type of its value; the value is
    /// returned if it exists and matches the expected type.
    pub fn remove<T: ContextValue>(&mut self, key: &str) -> (r: Option<T>)
        requires
            old(self).wf(),
        ensures
            final(self).wf(),
            final(self)@ == old(self)@.remove(key@),
            r is Some <==> old(self)@.contains_key(key@) && old(self)@[key@].kind() == T::kind(),
            r matches Some(x) ==> x.model() == old(self)@[key@],
    {
        let ghost old_self = *self;
        match self.find(key) {
            Some(i) => {
                proof {
                    old_self.lemma_position(i as int);
                }
                let (_k, v) = self.store.remove(i);
                proof {
                    let n = old_self.store@.len() as int;
                    let ii = i as int;
                    assert(self.key_seq() =~= old_self.key_seq().remove(ii));
                    assert(self.wf()) by {
                        assert forall|a: int, b: int|
                            0 <= a < self.key_seq().len() && 0 <= b < self.key_seq().len() && a != b
                            implies self.key_seq()[a] != self.key_seq()[b] by {
                            let a2 = if a < ii { a } else { a + 1 };
                            let b2 = if b < ii { b } else { b + 1 };
                            assert(old_self.key_seq()[a2] != old_self.key_seq()[b2]);
                        }
                    }
                    let m = old_self@.remove(key@);
                    assert forall|k2: Seq<char>| #[trigger] self@.contains_key(k2) <==> m.contains_key(k2) by {
                        if self@.contains_key(k2) {
                            let j = self.key_seq().index_of(k2);
                            let j2 = if j < ii { j } else { j + 1 };
                            assert(old_self.key_seq()[j2] == k2);
                            assert(j2 != ii);
                        }
                        if m.contains_key(k2) {
                            let j = old_self.key_seq().index_of(k2);
                            assert(j != ii);
                            let j2 = if j < ii { j } else { j - 1 };
                            assert(self.key_seq()[j2] == k2);
                        }
                    }
                    assert forall|k2: Seq<char>| #[trigger] self@.contains_key(k2) implies self@[k2] == m[k2] by {
                        let j = self.key_seq().index_of(k2);
                        self.lemma_position(j);
                        let j2 = if j < ii { j } else { j + 1 };
                        old_self.lemma_position(j2);
                    }
                    assert(self@ =~= m);
                }
                T::from_value(v)
            }
            None => {
                assert(self@ =~= old_self@.remove(key@));
                None
            }
        }
    }

    /// Get all keys in the store, each once, in no promised order.
    pub fn keys(&self) -> (r: Vec<&String>)
        requires
            self.wf(),
        ensures
            r@.map_values(|k: &String| k@).no_duplicates(),
            r@.map_values(|k: &String| k@).to_set() == self@.dom(),
    {
        let n = self.store.len();
        let mut r: Vec<&String> = Vec::new();
        let mut i: usize = 0;
        while i < n
            invariant
                self.wf(),
                n == self.store@.len(),
                i <= n,
                r@.map_values(|k: &String| k@) == self.key_seq().take(i as int),
            decreases n - i,
        {
            let ghost prev = r@;
            r.push(&self.store[i].0);
            proof {
                assert(r@ == prev.push(&self.store@[i as int].0));
                assert(self.key_seq()[i as int] == self.store@[i as int].0@);
                assert(r@.map_values(|k: &String| k@) =~= prev.map_values(|k: &String| k@).push(
                    self.key_seq()[i as int],
                ));
                assert(self.key_seq().take(i + 1) =~= self.key_seq().take(i as int).push(
                    self.key_seq()[i as int],
                ));
            }
            i = i + 1;
        }
        proof {
            assert(self.key_seq().take(n as int) =~= self.key_seq());
            assert(self.key_seq().to_set() =~= self@.dom());
        }
        r
    }

    /// Get all keys in the store as owned strings, each once, in no promised order.
    pub fn key_list(&self) -> (r: Vec<String>)
        requires
            self.wf(),
        ensures
            strings_view(r@).no_duplicates(),
            strings_view(r@).to_set() == self@.dom(),
    {
        let n = self.store.len();
        let mut r: Vec<String> = Vec::new();
        let mut i: usize = 0;
        while i < n
            invariant
                self.wf(),
                n == self.store@.len(),
                i <= n,
                strings_view(r@) == self.key_seq().take(i as int),
            decreases n - i,
        {
            let ghost prev = r@;
            r.push(self.store[i].0.clone());
            proof {
                assert(self.key_seq()[i as int] == self.store@[i as int].0@);
                assert(strings_view(r@) =~= strings_view(prev).push(self.key_seq()[i as int]));
                assert(self.key_seq().take(i + 1) =~= self.key_seq().take(i as int).push(
                    self.key_seq()[i as int],
                ));
            }
            i = i + 1;
        }
        proof {
            assert(self.key_seq().take(n as int) =~= self.key_seq());
            assert(self.key_seq().to_set() =~= self@.dom());
        }
        r
    }

    /// Clear all values from the store.
    pub fn clear(&mut self)
        requires
            old(self).wf(),
        ensures
            final(self).wf(),
            final(self)@ == Map::<Seq<char>, ValueView>::empty(),
    {
        self.store.clear();
        assert(self@ =~= Map::<Seq<char>, ValueView>::empty());
    }

    /// Create a new extended context holding `data` under the legacy key.
    pub fn with_data<T: ContextValue>(data: T) -> (r: Self)
        ensures
            r.wf(),
            r@ == Map::<Seq<char>, ValueView>::empty().insert(legacy_key(), data.model()),
    {
        let mut ctx = Self::new();
        ctx.set("__legacy_data", data);
        ctx
    }

    /// Get a reference to the value kept by `with_data`, if it has type `T`.
    /// Superseded by `get` with a key.
    pub fn get_data<T: ContextValue>(&self) -> (r: Option<&T>)
        requires
            self.wf(),
        ensures
            r is Some <==> self@.contains_key(legacy_key()) && self@[legacy_key()].kind() == T::kind(),
            r matches Some(x) ==> x.model() == self@[legacy_key()],
    {
        self.get("__legacy_data")
    }

    /// Get a mutable reference to the value kept by `with_data`, if it has
    /// type `T`. Superseded by `get_mut` with a key.
    pub fn get_data_mut<T: ContextValue>(&mut self) -> (r: Option<&mut T>)
        requires
            old(self).wf(),
        ensures
            r is Some <==> old(self)@.contains_key(legacy_key()) && old(self)@[legacy_key()].kind()
                == T::kind(),
            r matches Some(x) ==> x.model() == old(self)@[legacy_key()] && final(self)@ == old(
                self,
            )@.insert(legacy_key(), final(x).model()),
            r is None ==> final(self)@ == old(self)@,
            final(self).wf(),
    {
        self.get_mut("__legacy_data")
    }
}

impl Default for ExtendedContext {
    fn default() -> (r: Self)
        ensures
            r.wf(),
            r@ == Map::<Seq<char>, ValueView>::empty(),
    {
        Self::new()
    }
}

impl ExtendedContext {
    /// Whether the store holds a value of type `T` under `key`.
    pub open spec fn holds<T: ContextValue>(&self, key: Seq<char>) -> bool {
        self@.contains_key(key) && self@[key].kind() == T::kind()
    }

    /// Get a copy of a value from the store with type checking.
    /// Returns None if the key doesn't exist or if the type doesn't match.
    pub fn get_cloned<T: ContextValue>(&self, key: &str) -> (r: Option<T>)
        requires
            self.wf(),
        ensures
            r is Some <==> self.holds::<T>(key@),
            r matches Some(x) ==> x.model() == self@[key@],
    {
        match self.get::<T>(key) {
            Some(x) => Some(x.duplicate()),
            None => None,
        }
    }

    /// Get a copy of a value from the store, or `default` when the key is
    /// absent or holds a value of another type.
    pub fn get_or<T: ContextValue>(&self, key: &str, default: T) -> (r: T)
        requires
            self.wf(),
        ensures
            self.holds::<T>(key@) ==> r.model() == self@[key@],
            !self.holds::<T>(key@) ==> r == default,
    {
        match self.get::<T>(key) {
            Some(x) => x.duplicate(),
            None => default,
        }
    }

    /// Replace the value of type `T` under `key` by what `updater` makes of
    /// it. Fails, changing nothing, when the key is absent or holds a value
    /// of another type.
    pub fn update<T: ContextValue, F: FnOnce(T) -> T>(&mut self, key: &str, updater: F) -> (r: Result<
        (),
        GraphError,
    >)
        requires
            old(self).wf(),
            old(self).holds::<T>(key@) ==> forall|x: T|
                #![trigger updater.requires((x,))]
                x.model() == old(self)@[key@] ==> updater.requires((x,)),
        ensures
            final(self).wf(),
            r is Ok <==> old(self).holds::<T>(key@),
            r is Ok ==> exists|x: T, y: T|
                #![trigger updater.ensures((x,), y)]
                x.model() == old(self)@[key@] && updater.ensures((x,), y) && final(self)@ == old(
                    self,
                )@.insert(key@, y.model()),
            r matches Err(e) ==> final(self)@ == old(self)@ && (e matches GraphError::TaskExecutionFailed(
                m,
            ) && m@ == "Key '"@ + key@ + "' not found"@),
    {
        match self.get_cloned::<T>(key) {
            Some(value) => {
                let new_value = updater(value);
                self.set(key, new_value);
                Ok(())
            },
            None => {
                let msg = "Key '".to_owned().concat(key).concat("' not found");
                Err(GraphError::TaskExecutionFailed(msg))
            },
        }
    }

    /// Store what `updater` makes of the value of type `T` under `key`, or of
    /// `default` when there is none.
    pub fn update_or_insert<T: ContextValue, F: FnOnce(T) -> T>(
        &mut self,
        key: &str,
        default: T,
        updater: F,
    )
        requires
            old(self).wf(),
            forall|x: T|
                #![trigger updater.requires((x,))]
                (old(self).holds::<T>(key@) ==> x.model() == old(self)@[key@]) && (!old(self).holds::<T>(key@) ==> x == default) ==> updater.requires((x,)),
        ensures
            final(self).wf(),
            exists|x: T, y: T|
                #![trigger updater.ensures((x,), y)]
                (old(self).holds::<T>(key@) ==> x.model() == old(self)@[key@]) && (!old(self).holds::<
                    T,
                >(key@) ==> x == default) && updater.ensures((x,), y) && final(self)@ == old(
                    self,
                )@.insert(key@, y.model()),
    {
        let value = self.get_or(key, default);
        let new_value = updater(value);
        self.set(key, new_value);
    }
}

/// Replacing the value at one position of a well-formed store, keeping its
/// key, is an insert of the new value under that key.
proof fn lemma_replace_value(old_ctx: ExtendedContext, s2: ExtendedContext, i: int)
    requires
        old_ctx.wf(),
        0 <= i < old_ctx.store@.len(),
        s2.store@.len() == old_ctx.store@.len(),
        forall|j: int| 0 <= j < old_ctx.store@.len() && j != i ==> s2.store@[j] == old_ctx.store@[j],
        s2.store@[i].0 == old_ctx.store@[i].0,
    ensures
        s2.wf(),
        s2@ == old_ctx@.insert(old_ctx.store@[i].0@, s2.store@[i].1@),
{
    old_ctx.lemma_position(i);
    assert(s2.key_seq() =~= old_ctx.key_seq());
    assert(s2.wf());
    let m = old_ctx.contents().insert(old_ctx.store@[i].0@, s2.store@[i].1@);
    assert forall|k2: Seq<char>| #[trigger] s2.contents().contains_key(k2) implies s2.contents()[k2] == m[k2] by {
        let j = s2.key_seq().index_of(k2);
        s2.lemma_position(j);
        if j != i {
            old_ctx.lemma_position(j);
        }
    }
    assert(s2.contents() =~= m);
}

/// The same, for every store that differs from `old_ctx` only in the value
/// at position `i`.
proof fn lemma_replace_value_any(old_ctx: ExtendedContext, i: int)
    requires
        old_ctx.wf(),
        0 <= i < old_ctx.store@.len(),
    ensures
        forall|s2: ExtendedContext|
            #![trigger s2.store@]
            s2.store@.len() == old_ctx.store@.len() && (forall|j: int|
                0 <= j < old_ctx.store@.len() && j != i ==> s2.store@[j] == old_ctx.store@[j])
                && s2.store@[i].0 == old_ctx.store@[i].0 ==> s2.wf() && s2@ == old_ctx@.insert(
                old_ctx.store@[i].0@,
                s2.store@[i].1@,
            ),
{
    assert forall|s2: ExtendedContext|
        #![trigger s2.store@]
        s2.store@.len() == old_ctx.store@.len() && (forall|j: int|
            0 <= j < old_ctx.store@.len() && j != i ==> s2.store@[j] == old_ctx.store@[j])
            && s2.store@[i].0 == old_ctx.store@[i].0 implies s2.wf() && s2@ == old_ctx@.insert(
            old_ctx.store@[i].0@,
            s2.store@[i].1@,
        ) by {
        lemma_replace_value(old_ctx, s2, i);
    }
}
} // verus!
