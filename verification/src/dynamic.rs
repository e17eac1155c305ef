//! The dynamically typed value model.
//!
//! A `Dynamic` is a tagged union of scalars, strings, byte buffers and
//! composite containers. Containers (arrays and objects) have handle
//! semantics: the `Dynamic` holds an index into a `Store`, and cloning the
//! `Dynamic` copies the index, not the container, so every clone observes
//! mutations made through any other clone.
use vstd::prelude::*;
use vstd::string::StringSliceAdditionalSpecFns;

verus! {

/// Error returned by accessors and container operations of the value model.
#[derive(Debug, Clone, Copy, PartialEq, Eq, Structural)]
pub enum DynError {
    /// The operation was invoked on a value of the wrong variant.
    TypeMismatch,
    /// An array index at or past the array's length.
    IndexOutOfBounds,
    /// The key is not present in the object.
    KeyNotFound,
    /// `pop` on an array that holds no elements.
    Empty,
    /// Bytes offered as string content that are not valid UTF-8.
    InvalidUtf8,
}

/// Spec-level mirror of `Dynamic`: scalars as plain values, strings as
/// character sequences, byte buffers as byte sequences, containers as
/// store handles.
pub enum Val {
    Null,
    Bool(bool),
    Byte(u8),
    Int(i64),
    UInt(u64),
    /// IEEE 754 binary32 bit pattern.
    Float(u32),
    /// IEEE 754 binary64 bit pattern.
    Double(u64),
    Str(Seq<char>),
    Arr(int),
    Obj(int),
    Bytes(Seq<u8>),
}

/// Spec view of a `Store`: the backing sequences of every array handle and
/// the sorted key/value entries of every object handle.
pub struct StoreV {
    pub arrays: Seq<Seq<Val>>,
    pub objects: Seq<Seq<(Seq<char>, Val)>>,
}

/// Strict lexicographic order on byte sequences.
pub open spec fn bytes_lt(a: Seq<u8>, b: Seq<u8>) -> bool
    decreases a.len(),
{
    b.len() > 0 && (a.len() == 0 || a[0] < b[0] || (a[0] == b[0] && bytes_lt(
        a.drop_first(),
        b.drop_first(),
    )))
}

/// Object keys are ordered by the lexicographic order of their UTF-8 bytes.
pub open spec fn key_lt(a: Seq<char>, b: Seq<char>) -> bool {
    bytes_lt(vstd::utf8::encode_utf8(a), vstd::utf8::encode_utf8(b))
}

/// The entries of one object: keys strictly ascending, hence unique.
pub open spec fn sorted_entries<V>(es: Seq<(Seq<char>, V)>) -> bool {
    forall|i: int, j: int| 0 <= i < j < es.len() ==> key_lt(es[i].0, es[j].0)
}

/// The value stored under key `k`, if any.
pub open spec fn find_entry<V>(es: Seq<(Seq<char>, V)>, k: Seq<char>) -> Option<V>
    decreases es.len(),
{
    if es.len() == 0 {
        Option::None
    } else if es[0].0 == k {
        Option::Some(es[0].1)
    } else {
        find_entry(es.drop_first(), k)
    }
}

/// Entries after inserting `(k, v)` at its sorted position, overwriting an
/// entry whose key equals `k`.
pub open spec fn insert_entry<V>(
    es: Seq<(Seq<char>, V)>,
    k: Seq<char>,
    v: V,
) -> Seq<(Seq<char>, V)>
    decreases es.len(),
{
    if es.len() == 0 {
        seq![(k, v)]
    } else if es[0].0 == k {
        seq![(k, v)] + es.drop_first()
    } else if key_lt(k, es[0].0) {
        seq![(k, v)] + es
    } else {
        seq![es[0]] + insert_entry(es.drop_first(), k, v)
    }
}

/// Entries after removing the entry keyed `k`, if present.
pub open spec fn remove_entry<V>(es: Seq<(Seq<char>, V)>, k: Seq<char>) -> Seq<(Seq<char>, V)>
    decreases es.len(),
{
    if es.len() == 0 {
        es
    } else if es[0].0 == k {
        es.drop_first()
    } else {
        seq![es[0]] + remove_entry(es.drop_first(), k)
    }
}

/// Entries after inserting every entry of `more`, in order, into `es`.
pub open spec fn merge_entries<V>(
    es: Seq<(Seq<char>, V)>,
    more: Seq<(Seq<char>, V)>,
) -> Seq<(Seq<char>, V)>
    decreases more.len(),
{
    if more.len() == 0 {
        es
    } else {
        insert_entry(merge_entries(es, more.drop_last()), more.last().0, more.last().1)
    }
}

/// The object built by inserting the given entries, in order, into an empty
/// object; a later entry overwrites an earlier one with the same key.
pub open spec fn entries_to_obj<V>(es: Seq<(Seq<char>, V)>) -> Seq<(Seq<char>, V)> {
    merge_entries(Seq::empty(), es)
}

impl StoreV {
    /// Every object's entries are sorted by key.
    pub open spec fn wf(self) -> bool {
        forall|k: int| 0 <= k < self.objects.len() ==> sorted_entries(#[trigger] self.objects[k])
    }

    /// `self` has every container of `s0`, unchanged, and possibly more.
    pub open spec fn extends(self, s0: StoreV) -> bool {
        &&& self.arrays.len() >= s0.arrays.len()
        &&& self.objects.len() >= s0.objects.len()
        &&& forall|i: int| 0 <= i < s0.arrays.len() ==> self.arrays[i] == s0.arrays[i]
        &&& forall|i: int| 0 <= i < s0.objects.len() ==> self.objects[i] == s0.objects[i]
    }
}

/// The arena that backs every array and object handle. Handles index into
/// it; slots are never removed, so a handle stays valid for the lifetime of
/// the store.
pub struct Store {
    arrays: Vec<Vec<Dynamic>>,
    objects: Vec<Vec<(String, Dynamic)>>,
}

/// Spec view of one array's backing vector.
pub open spec fn aview(a: Seq<Dynamic>) -> Seq<Val> {
    a.map_values(|d: Dynamic| d@)
}

/// Spec view of one object's backing entry vector.
pub open spec fn eview(es: Seq<(String, Dynamic)>) -> Seq<(Seq<char>, Val)> {
    es.map_values(|e: (String, Dynamic)| (e.0@, e.1@))
}

pub broadcast proof fn lemma_aview_index(a: Seq<Dynamic>, i: int)
    requires
        0 <= i < a.len(),
    ensures
        #[trigger] aview(a)[i] == a[i]@,
{
}

pub broadcast proof fn lemma_eview_index(es: Seq<(String, Dynamic)>, i: int)
    requires
        0 <= i < es.len(),
    ensures
        #[trigger] eview(es)[i] == (es[i].0@, es[i].1@),
{
}


/// The dynamically typed value. Scalar variants carry their payload;
/// `Float` and `Double` carry IEEE 754 bit patterns; `Arr` and `Obj` carry
/// a handle into a `Store`.
#[derive(Debug)]
pub enum Dynamic {
    Null,
    Bool(bool),
    Byte(u8),
    Int(i64),
    UInt(u64),
    /// IEEE 754 binary32 bit pattern.
    Float(u32),
    /// IEEE 754 binary64 bit pattern.
    Double(u64),
    Str(String),
    Arr(usize),
    Obj(usize),
    Bytes(Vec<u8>),
}

impl View for Dynamic {
    type V = Val;

    open spec fn view(&self) -> Val {
        match self {
            Dynamic::Null => Val::Null,
            Dynamic::Bool(b) => Val::Bool(*b),
            Dynamic::Byte(b) => Val::Byte(*b),
            Dynamic::Int(i) => Val::Int(*i),
            Dynamic::UInt(u) => Val::UInt(*u),
            Dynamic::Float(bits) => Val::Float(*bits),
            Dynamic::Double(bits) => Val::Double(*bits),
            Dynamic::Str(s) => Val::Str(s@),
            Dynamic::Arr(h) => Val::Arr(*h as int),
            Dynamic::Obj(h) => Val::Obj(*h as int),
            Dynamic::Bytes(b) => Val::Bytes(b@),
        }
    }
}

impl View for Store {
    type V = StoreV;

    closed spec fn view(&self) -> StoreV {
        StoreV {
            arrays: self.arrays@.map_values(|a: Vec<Dynamic>| aview(a@)),
            objects: self.objects@.map_values(|o: Vec<(String, Dynamic)>| eview(o@)),
        }
    }
}

impl Dynamic {
    /// The value's handle, if it has one, is in range for the store.
    pub open spec fn valid_in(self, s: StoreV) -> bool {
        match self@ {
            Val::Arr(h) => 0 <= h < s.arrays.len(),
            Val::Obj(h) => 0 <= h < s.objects.len(),
            _ => true,
        }
    }
}

impl Store {
    /// An empty store: no array or object has been created yet.
    pub fn new() -> (r: Store)
        ensures
            r@.arrays.len() == 0,
            r@.objects.len() == 0,
            r@.wf(),
    {
        let r = Store { arrays: Vec::new(), objects: Vec::new() };
        proof {
            assert(r@.arrays =~= Seq::empty());
            assert(r@.objects =~= Seq::empty());
        }
        r
    }
}

proof fn lemma_bytes_lt_irrefl(a: Seq<u8>)
    ensures
        !bytes_lt(a, a),
    decreases a.len(),
{
    if a.len() > 0 {
        lemma_bytes_lt_irrefl(a.drop_first());
    }
}

proof fn lemma_bytes_lt_connected(a: Seq<u8>, b: Seq<u8>)
    requires
        !bytes_lt(a, b),
        !bytes_lt(b, a),
    ensures
        a == b,
    decreases a.len(),
{
    if a.len() == 0 || b.len() == 0 {
        assert(a =~= b);
    } else {
        lemma_bytes_lt_connected(a.drop_first(), b.drop_first());
        assert(a =~= seq![a[0]] + a.drop_first());
        assert(b =~= seq![b[0]] + b.drop_first());
    }
}

proof fn lemma_bytes_lt_trans(a: Seq<u8>, b: Seq<u8>, c: Seq<u8>)
    requires
        bytes_lt(a, b),
        bytes_lt(b, c),
    ensures
        bytes_lt(a, c),
    decreases a.len(),
{
    if a.len() > 0 && b.len() > 0 && a[0] == b[0] && b[0] == c[0] {
        lemma_bytes_lt_trans(a.drop_first(), b.drop_first(), c.drop_first());
    }
}

/// Two character sequences with the same UTF-8 encoding are the same.
proof fn lemma_utf8_injective(a: Seq<char>, b: Seq<char>)
    requires
        vstd::utf8::encode_utf8(a) == vstd::utf8::encode_utf8(b),
    ensures
        a == b,
{
    vstd::utf8::encode_utf8_decode_utf8(a);
    vstd::utf8::encode_utf8_decode_utf8(b);
}

pub proof fn lemma_key_lt_irrefl(a: Seq<char>)
    ensures
        !key_lt(a, a),
{
    lemma_bytes_lt_irrefl(vstd::utf8::encode_utf8(a));
}

pub proof fn lemma_key_lt_connected(a: Seq<char>, b: Seq<char>)
    requires
        !key_lt(a, b),
        !key_lt(b, a),
    ensures
        a == b,
{
    lemma_bytes_lt_connected(vstd::utf8::encode_utf8(a), vstd::utf8::encode_utf8(b));
    lemma_utf8_injective(a, b);
}

pub proof fn lemma_key_lt_trans(a: Seq<char>, b: Seq<char>, c: Seq<char>)
    requires
        key_lt(a, b),
        key_lt(b, c),
    ensures
        key_lt(a, c),
{
    lemma_bytes_lt_trans(
        vstd::utf8::encode_utf8(a),
        vstd::utf8::encode_utf8(b),
        vstd::utf8::encode_utf8(c),
    );
}

proof fn lemma_bytes_lt_step(x: Seq<u8>, y: Seq<u8>)
    requires
        x.len() > 0,
        y.len() > 0,
        x[0] == y[0],
    ensures
        bytes_lt(x, y) == bytes_lt(x.drop_first(), y.drop_first()),
{
}

/// Lexicographic comparison of two byte slices.
fn bytes_lt_exec(x: &[u8], y: &[u8]) -> (r: bool)
    ensures
        r == bytes_lt(x@, y@),
{
    let mut i: usize = 0;
    proof {
        assert(x@.skip(0) =~= x@);
        assert(y@.skip(0) =~= y@);
    }
    while i < x.len() && i < y.len() && x[i] == y[i]
        invariant
            i <= x@.len(),
            i <= y@.len(),
            bytes_lt(x@, y@) == bytes_lt(x@.skip(i as int), y@.skip(i as int)),
        decreases x@.len() - i,
    {
        proof {
            lemma_bytes_lt_step(x@.skip(i as int), y@.skip(i as int));
            assert(x@.skip(i as int).drop_first() =~= x@.skip(i + 1));
            assert(y@.skip(i as int).drop_first() =~= y@.skip(i + 1));
        }
        i += 1;
    }
    proof {
        assert(x@.skip(i as int).len() == x@.len() - i);
        assert(y@.skip(i as int).len() == y@.len() - i);
    }
    if i < x.len() && i < y.len() {
        x[i] < y[i]
    } else {
        i < y.len()
    }
}

/// Byte-wise equality of two byte slices.
fn bytes_eq_exec(x: &[u8], y: &[u8]) -> (r: bool)
    ensures
        r == (x@ == y@),
{
    if x.len() != y.len() {
        proof {
            assert(x@.len() != y@.len());
        }
        return false;
    }
    let mut i: usize = 0;
    while i < x.len()
        invariant
            i <= x@.len(),
            x@.len() == y@.len(),
            forall|j: int| 0 <= j < i ==> x@[j] == y@[j],
        decreases x@.len() - i,
    {
        if x[i] != y[i] {
            return false;
        }
        i += 1;
    }
    proof {
        assert(x@ =~= y@);
    }
    true
}

/// Whether `a` orders strictly before `b` as an object key.
fn str_key_lt(a: &str, b: &str) -> (r: bool)
    ensures
        r == key_lt(a@, b@),
{
    bytes_lt_exec(a.as_bytes(), b.as_bytes())
}

/// Whether `a` and `b` hold the same characters.
fn str_eq(a: &str, b: &str) -> (r: bool)
    ensures
        r == (a@ == b@),
{
    let r = bytes_eq_exec(a.as_bytes(), b.as_bytes());
    proof {
        if a.spec_bytes() == b.spec_bytes() {
            lemma_utf8_injective(a@, b@);
        }
    }
    r
}

impl Dynamic {
    /// A fresh, empty object, backed by a new slot of the store.
    pub fn map(store: &mut Store) -> (r: Dynamic)
        ensures
            final(store)@.arrays == old(store)@.arrays,
            final(store)@.objects == old(store)@.objects.push(Seq::empty()),
            r@ == Val::Obj(old(store)@.objects.len() as int),
            old(store)@.wf() ==> final(store)@.wf(),
    {
        let h = store.objects.len();
        store.objects.push(Vec::new());
        proof {
            assert(final(store)@.objects =~~= old(store)@.objects.push(Seq::empty()));
            assert(final(store)@.arrays =~~= old(store)@.arrays);
            if old(store)@.wf() {
                store_push_object_view(old(store)@, final(store)@);
            }
        }
        Dynamic::Obj(h)
    }

    /// A fresh, empty array, backed by a new slot of the store.
    pub fn vec(store: &mut Store) -> (r: Dynamic)
        ensures
            final(store)@.objects == old(store)@.objects,
            final(store)@.arrays == old(store)@.arrays.push(Seq::empty()),
            r@ == Val::Arr(old(store)@.arrays.len() as int),
            old(store)@.wf() ==> final(store)@.wf(),
    {
        let h = store.arrays.len();
        store.arrays.push(Vec::new());
        proof {
            assert(final(store)@.arrays =~~= old(store)@.arrays.push(Seq::empty()));
            assert(final(store)@.objects =~~= old(store)@.objects);
        }
        Dynamic::Arr(h)
    }

    /// Wraps an existing byte buffer as a `Bytes` value.
    pub fn from_bytes(vec: Vec<u8>) -> (r: Dynamic)
        ensures
            r@ == Val::Bytes(vec@),
    {
        Dynamic::Bytes(vec)
    }

    pub fn is_null(&self) -> (r: bool)
        ensures
            r == (self@ is Null),
    {
        match self {
            Dynamic::Null => true,
            _ => false,
        }
    }

    pub fn is_string(&self) -> (r: bool)
        ensures
            r == (self@ is Str),
    {
        match self {
            Dynamic::Str(_) => true,
            _ => false,
        }
    }

    pub fn is_bool(&self) -> (r: bool)
        ensures
            r == (self@ is Bool),
    {
        match self {
            Dynamic::Bool(_) => true,
            _ => false,
        }
    }

    pub fn is_vec(&self) -> (r: bool)
        ensures
            r == (self@ is Arr),
    {
        match self {
            Dynamic::Arr(_) => true,
            _ => false,
        }
    }

    pub fn is_map(&self) -> (r: bool)
        ensures
            r == (self@ is Obj),
    {
        match self {
            Dynamic::Obj(_) => true,
            _ => false,
        }
    }

    /// The string slice behind a `Str` value; a type-mismatch error on any
    /// other variant.
    pub fn as_str(&self) -> (r: Result<&str, DynError>)
        ensures
            match r {
                Ok(s) => self@ == Val::Str(s@),
                Err(e) => e == DynError::TypeMismatch && !(self@ is Str),
            },
    {
        match self {
            Dynamic::Str(s) => Ok(s.as_str()),
            _ => Err(DynError::TypeMismatch),
        }
    }

    /// The boolean behind a `Bool` value; a type-mismatch error otherwise.
    pub fn as_bool(&self) -> (r: Result<bool, DynError>)
        ensures
            match r {
                Ok(b) => self@ == Val::Bool(b),
                Err(e) => e == DynError::TypeMismatch && !(self@ is Bool),
            },
    {
        match self {
            Dynamic::Bool(b) => Ok(*b),
            _ => Err(DynError::TypeMismatch),
        }
    }

    /// The integer behind an `Int` or `UInt` value; an `Int`'s bits are
    /// reinterpreted as unsigned. A type-mismatch error on other variants.
    pub fn as_u64(&self) -> (r: Result<u64, DynError>)
        ensures
            match r {
                Ok(u) => (self@ matches Val::Int(i) && u == i as u64) || self@ == Val::UInt(u),
                Err(e) => e == DynError::TypeMismatch && !(self@ is Int) && !(self@ is UInt),
            },
    {
        match self {
            Dynamic::Int(i) => Ok(#[verifier::truncate] (*i as u64)),
            Dynamic::UInt(u) => Ok(*u),
            _ => Err(DynError::TypeMismatch),
        }
    }

    /// Consumes the value and returns the owned string behind a `Str`;
    /// a type-mismatch error on any other variant.
    pub fn into_string(self) -> (r: Result<String, DynError>)
        ensures
            match r {
                Ok(s) => self@ == Val::Str(s@),
                Err(e) => e == DynError::TypeMismatch && !(self@ is Str),
            },
    {
        match self {
            Dynamic::Str(s) => Ok(s),
            _ => Err(DynError::TypeMismatch),
        }
    }

    /// Consumes the value and returns a snapshot of the array behind an
    /// `Arr` handle; a type-mismatch error on any other variant.
    pub fn into_vec(self, store: &Store) -> (r: Result<Vec<Dynamic>, DynError>)
        requires
            self.valid_in(store@),
        ensures
            match r {
                Ok(v) => self@ matches Val::Arr(h) && aview(v@) == store@.arrays[h],
                Err(e) => e == DynError::TypeMismatch && !(self@ is Arr),
            },
    {
        match self {
            Dynamic::Arr(h) => Ok(clone_items(&store.arrays[h])),
            _ => Err(DynError::TypeMismatch),
        }
    }

    /// Element or entry count of an array or object; a type-mismatch error
    /// on scalar variants.
    pub fn len(&self, store: &Store) -> (r: Result<usize, DynError>)
        requires
            self.valid_in(store@),
        ensures
            match r {
                Ok(n) => (self@ matches Val::Arr(h) && n == store@.arrays[h].len()) || (
                self@ matches Val::Obj(h) && n == store@.objects[h].len()),
                Err(e) => e == DynError::TypeMismatch && !(self@ is Arr) && !(self@ is Obj),
            },
    {
        match self {
            Dynamic::Arr(h) => Ok(store.arrays[*h].len()),
            Dynamic::Obj(h) => Ok(store.objects[*h].len()),
            _ => Err(DynError::TypeMismatch),
        }
    }

    /// The element at `index` of an array, an out-of-bounds error past its
    /// length, and a type-mismatch error on any other variant.
    pub fn get(&self, store: &Store, index: usize) -> (r: Result<Dynamic, DynError>)
        requires
            self.valid_in(store@),
        ensures
            match r {
                Ok(d) => self@ matches Val::Arr(h) && index < store@.arrays[h].len() && d@
                    == store@.arrays[h][index as int],
                Err(e) => (e == DynError::IndexOutOfBounds && (self@ matches Val::Arr(h) && index
                    >= store@.arrays[h].len())) || (e == DynError::TypeMismatch && !(self@ is Arr)),
            },
    {
        match self {
            Dynamic::Arr(h) => {
                let items = &store.arrays[*h];
                if index < items.len() {
                    proof {
                        lemma_aview_index(items@, index as int);
                    }
                    Ok(items[index].clone())
                } else {
                    Err(DynError::IndexOutOfBounds)
                }
            },
            _ => Err(DynError::TypeMismatch),
        }
    }

    /// Appends `val` at the tail of an array; a type-mismatch error on any
    /// other variant.
    pub fn push(&self, store: &mut Store, val: Dynamic) -> (r: Result<(), DynError>)
        requires
            self.valid_in(old(store)@),
        ensures
            match r {
                Ok(()) => self@ matches Val::Arr(h) && final(store)@.arrays == old(store)@.arrays.update(h, old(store)@.arrays[h].push(val@)) && final(store)@.objects
                    == old(store)@.objects,
                Err(e) => e == DynError::TypeMismatch && !(self@ is Arr) && final(store)@ == old(store)@,
            },
            old(store)@.wf() ==> final(store)@.wf(),
    {
        match self {
            Dynamic::Arr(h) => {
                let ghost inner0 = store.arrays@[*h as int]@;
                store.arrays[*h].push(val);
                proof {
                    broadcast use lemma_aview_index;

                    assert(aview(store.arrays@[*h as int]@) =~= aview(inner0).push(val@));
                    assert(final(store)@.arrays =~= old(store)@.arrays.update(
                        *h as int,
                        old(store)@.arrays[*h as int].push(val@),
                    ));
                    assert(final(store)@.objects =~= old(store)@.objects);
                }
                Ok(())
            },
            _ => Err(DynError::TypeMismatch),
        }
    }

    /// Removes and returns the last element of an array; an empty error
    /// when there is none, a type-mismatch error on other variants.
    pub fn pop(&self, store: &mut Store) -> (r: Result<Dynamic, DynError>)
        requires
            self.valid_in(old(store)@),
        ensures
            match r {
                Ok(d) => self@ matches Val::Arr(h) && old(store)@.arrays[h].len() > 0 && d@ == old(store)@.arrays[h].last() && final(store)@.arrays == old(store)@.arrays.update(
                    h,
                    old(store)@.arrays[h].drop_last(),
                ) && final(store)@.objects == old(store)@.objects,
                Err(e) => final(store)@ == old(store)@ && ((e == DynError::Empty
                    && (self@ matches Val::Arr(h) && old(store)@.arrays[h].len() == 0)) || (e
                    == DynError::TypeMismatch && !(self@ is Arr))),
            },
            old(store)@.wf() ==> final(store)@.wf(),
    {
        match self {
            Dynamic::Arr(h) => {
                let ghost inner0 = store.arrays@[*h as int]@;
                let popped = store.arrays[*h].pop();
                match popped {
                    Some(d) => {
                        proof {
                            broadcast use lemma_aview_index;

                            assert(aview(store.arrays@[*h as int]@) =~= aview(inner0).drop_last());
                            assert(final(store)@.arrays =~= old(store)@.arrays.update(
                                *h as int,
                                old(store)@.arrays[*h as int].drop_last(),
                            ));
                            assert(final(store)@.objects =~= old(store)@.objects);
                            assert(d@ == aview(inner0).last());
                        }
                        Ok(d)
                    },
                    None => {
                        proof {
                            assert(final(store)@.arrays =~= old(store)@.arrays);
                            assert(final(store)@.objects =~= old(store)@.objects);
                        }
                        Err(DynError::Empty)
                    },
                }
            },
            _ => Err(DynError::TypeMismatch),
        }
    }

    /// The value stored under `key` in an object; a missing-key error when
    /// absent, a type-mismatch error on other variants.
    pub fn get_key(&self, store: &Store, key: &str) -> (r: Result<Dynamic, DynError>)
        requires
            self.valid_in(store@),
        ensures
            match r {
                Ok(d) => self@ matches Val::Obj(h) && find_entry(store@.objects[h], key@)
                    == Option::Some(d@),
                Err(e) => (e == DynError::KeyNotFound && (self@ matches Val::Obj(h) && find_entry(
                    store@.objects[h],
                    key@,
                ) is None)) || (e == DynError::TypeMismatch && !(self@ is Obj)),
            },
    {
        match self {
            Dynamic::Obj(h) => {
                let entries = &store.objects[*h];
                match obj_find_idx(entries, key) {
                    Some(i) => {
                        proof {
                            broadcast use lemma_eview_index;

                            assert forall|j: int|
                                0 <= j < i implies (#[trigger] eview(entries@)[j]).0 != key@ by {
                                lemma_eview_index(entries@, j);
                            }
                            lemma_find_entry_some(eview(entries@), key@, i as int);
                        }
                        Ok(entries[i].1.clone())
                    },
                    None => {
                        proof {
                            assert forall|j: int|
                                0 <= j < eview(entries@).len() implies (#[trigger] eview(
                                entries@,
                            )[j]).0 != key@ by {
                                lemma_eview_index(entries@, j);
                            }
                            lemma_find_entry_none(eview(entries@), key@);
                        }
                        Err(DynError::KeyNotFound)
                    },
                }
            },
            _ => Err(DynError::TypeMismatch),
        }
    }

    /// Whether an object holds `key`; a type-mismatch error on other
    /// variants.
    pub fn contains(&self, store: &Store, key: &str) -> (r: Result<bool, DynError>)
        requires
            self.valid_in(store@),
        ensures
            match r {
                Ok(b) => self@ matches Val::Obj(h) && b == (find_entry(
                    store@.objects[h],
                    key@,
                ) is Some),
                Err(e) => e == DynError::TypeMismatch && !(self@ is Obj),
            },
    {
        match self.get_key(store, key) {
            Ok(_) => Ok(true),
            Err(DynError::KeyNotFound) => Ok(false),
            Err(_) => Err(DynError::TypeMismatch),
        }
    }

    /// Inserts or overwrites `key` in an object, returning the value the
    /// key held before, if any; a type-mismatch error on other variants.
    pub fn set_key(&self, store: &mut Store, key: &str, val: Dynamic) -> (r: Result<
        Option<Dynamic>,
        DynError,
    >)
        requires
            self.valid_in(old(store)@),
            old(store)@.wf(),
        ensures
            final(store)@.wf(),
            match r {
                Ok(prev) => self@ matches Val::Obj(h) && final(store)@.objects == old(store)@.objects.update(h, insert_entry(old(store)@.objects[h], key@, val@)) && final(store)@.arrays == old(store)@.arrays && (match prev {
                    Some(d) => find_entry(old(store)@.objects[h], key@) == Option::Some(d@),
                    None => find_entry(old(store)@.objects[h], key@) is None,
                }),
                Err(e) => e == DynError::TypeMismatch && !(self@ is Obj) && final(store)@ == old(store)@,
            },
    {
        match self {
            Dynamic::Obj(h) => {
                let prev = entries_set(&mut store.objects[*h], key, val);
                proof {
                    assert(final(store)@.objects =~= old(store)@.objects.update(
                        *h as int,
                        insert_entry(old(store)@.objects[*h as int], key@, val@),
                    ));
                    assert(final(store)@.arrays =~= old(store)@.arrays);
                    assert forall|k: int|
                        0 <= k < final(store)@.objects.len() implies sorted_entries(
                        #[trigger] final(store)@.objects[k],
                    ) by {
                        if k != *h as int {
                            assert(final(store)@.objects[k] == old(store)@.objects[k]);
                        }
                    }
                }
                Ok(prev)
            },
            _ => Err(DynError::TypeMismatch),
        }
    }

    /// Removes `key` from an object, returning the value it held, if any;
    /// a type-mismatch error on other variants.
    pub fn remove_key(&self, store: &mut Store, key: &str) -> (r: Result<
        Option<Dynamic>,
        DynError,
    >)
        requires
            self.valid_in(old(store)@),
            old(store)@.wf(),
        ensures
            final(store)@.wf(),
            match r {
                Ok(prev) => self@ matches Val::Obj(h) && final(store)@.objects == old(store)@.objects.update(h, remove_entry(old(store)@.objects[h], key@)) && final(store)@.arrays == old(store)@.arrays && (match prev {
                    Some(d) => find_entry(old(store)@.objects[h], key@) == Option::Some(d@),
                    None => find_entry(old(store)@.objects[h], key@) is None,
                }),
                Err(e) => e == DynError::TypeMismatch && !(self@ is Obj) && final(store)@ == old(store)@,
            },
    {
        match self {
            Dynamic::Obj(h) => {
                let ghost es0 = old(store)@.objects[*h as int];
                let found = obj_find_idx(&store.objects[*h], key);
                match found {
                    Some(i) => {
                        let prev = store.objects[*h].remove(i);
                        proof {
                            broadcast use lemma_eview_index;

                            let entries0 = old(store).objects@[*h as int]@;
                            assert forall|j: int|
                                0 <= j < i implies (#[trigger] es0[j]).0 != key@ by {
                                lemma_eview_index(entries0, j);
                            }
                            lemma_remove_entry_shape(es0, key@, i as int);
                            lemma_remove_sorted(es0, i as int);
                            entries0.remove_ensures(i as int);
                            assert forall|j: int|
                                0 <= j < eview(store.objects@[*h as int]@).len() implies #[trigger] eview(
                                store.objects@[*h as int]@,
                            )[j] == (es0.take(i as int) + es0.skip(i as int + 1))[j] by {
                                lemma_eview_index(store.objects@[*h as int]@, j);
                                if j < i {
                                    lemma_eview_index(entries0, j);
                                } else {
                                    lemma_eview_index(entries0, j + 1);
                                }
                            }
                            assert(eview(store.objects@[*h as int]@) =~= es0.take(i as int)
                                + es0.skip(i as int + 1));
                            assert(eview(store.objects@[*h as int]@) =~= remove_entry(es0, key@));
                            assert(final(store)@.objects =~= old(store)@.objects.update(
                                *h as int,
                                remove_entry(es0, key@),
                            ));
                            assert(final(store)@.arrays =~= old(store)@.arrays);
                            assert forall|k: int|
                                0 <= k < final(store)@.objects.len() implies sorted_entries(
                                #[trigger] final(store)@.objects[k],
                            ) by {
                                if k != *h as int {
                                    assert(final(store)@.objects[k] == old(store)@.objects[k]);
                                }
                            }
                            assert(prev == entries0[i as int]);
                        }
                        Ok(Some(prev.1))
                    },
                    None => {
                        proof {
                            let entries0 = old(store).objects@[*h as int]@;
                            assert forall|j: int|
                                0 <= j < es0.len() implies (#[trigger] es0[j]).0 != key@ by {
                                lemma_eview_index(entries0, j);
                            }
                            lemma_remove_entry_absent(es0, key@);
                            assert(final(store)@.objects =~= old(store)@.objects.update(
                                *h as int,
                                remove_entry(es0, key@),
                            ));
                        }
                        Ok(None)
                    },
                }
            },
            _ => Err(DynError::TypeMismatch),
        }
    }
}

proof fn lemma_key_lt_ne(a: Seq<char>, b: Seq<char>)
    requires
        key_lt(a, b),
    ensures
        a != b,
{
    if a == b {
        lemma_key_lt_irrefl(a);
    }
}

proof fn lemma_key_lt_asym(a: Seq<char>, b: Seq<char>)
    requires
        key_lt(a, b),
    ensures
        !key_lt(b, a),
{
    if key_lt(b, a) {
        lemma_key_lt_trans(a, b, a);
        lemma_key_lt_irrefl(a);
    }
}

pub proof fn lemma_find_entry_none<V>(es: Seq<(Seq<char>, V)>, k: Seq<char>)
    requires
        forall|j: int| 0 <= j < es.len() ==> (#[trigger] es[j]).0 != k,
    ensures
        find_entry(es, k) is None,
    decreases es.len(),
{
    if es.len() > 0 {
        lemma_find_entry_none(es.drop_first(), k);
    }
}

pub proof fn lemma_find_entry_some<V>(es: Seq<(Seq<char>, V)>, k: Seq<char>, i: int)
    requires
        0 <= i < es.len(),
        es[i].0 == k,
        forall|j: int| 0 <= j < i ==> (#[trigger] es[j]).0 != k,
    ensures
        find_entry(es, k) == Option::Some(es[i].1),
    decreases i,
{
    if i > 0 {
        lemma_find_entry_some(es.drop_first(), k, i - 1);
    }
}

/// Where the sorted-position scan stops, `insert_entry` places the new
/// entry: overwriting in place when the key was present, widening by one
/// when it was not.
pub proof fn lemma_insert_entry_shape<V>(es: Seq<(Seq<char>, V)>, k: Seq<char>, v: V, i: int)
    requires
        0 <= i <= es.len(),
        forall|j: int| 0 <= j < i ==> key_lt((#[trigger] es[j]).0, k),
        i < es.len() ==> !key_lt(es[i].0, k),
    ensures
        i < es.len() && es[i].0 == k ==> insert_entry(es, k, v) =~= es.take(i) + seq![(k, v)]
            + es.skip(i + 1),
        !(i < es.len() && es[i].0 == k) ==> insert_entry(es, k, v) =~= es.take(i) + seq![(k, v)]
            + es.skip(i),
    decreases i,
{
    if i == 0 {
        if es.len() == 0 {
        } else if es[0].0 == k {
        } else {
            // neither order nor equality puts the head first, so k goes first
            if !key_lt(k, es[0].0) {
                lemma_key_lt_connected(es[0].0, k);
            }
        }
    } else {
        lemma_key_lt_ne(es[0].0, k);
        lemma_key_lt_asym(es[0].0, k);
        let d = es.drop_first();
        assert(forall|j: int| 0 <= j < i - 1 ==> key_lt((#[trigger] d[j]).0, k));
        lemma_insert_entry_shape(d, k, v, i - 1);
    }
}

/// Inserting at the scanned position keeps the entries sorted and the
/// previous binding is what `find_entry` reports.
pub proof fn lemma_insert_entry_at<V>(es: Seq<(Seq<char>, V)>, k: Seq<char>, v: V, i: int)
    requires
        sorted_entries(es),
        0 <= i <= es.len(),
        forall|j: int| 0 <= j < i ==> key_lt((#[trigger] es[j]).0, k),
        i < es.len() ==> !key_lt(es[i].0, k),
    ensures
        sorted_entries(insert_entry(es, k, v)),
        i < es.len() && es[i].0 == k ==> find_entry(es, k) == Option::Some(es[i].1)
            && insert_entry(es, k, v) == es.take(i) + seq![(k, v)] + es.skip(i + 1),
        !(i < es.len() && es[i].0 == k) ==> find_entry(es, k) is None && insert_entry(es, k, v)
            == es.take(i) + seq![(k, v)] + es.skip(i),
{
    lemma_insert_entry_shape(es, k, v, i);
    assert forall|j: int| 0 <= j < i implies (#[trigger] es[j]).0 != k by {
        lemma_key_lt_ne(es[j].0, k);
    }
    if i < es.len() && es[i].0 == k {
        lemma_find_entry_some(es, k, i);
        let r = insert_entry(es, k, v);
        assert(r =~= es.take(i) + seq![(k, v)] + es.skip(i + 1));
        assert forall|a: int, b: int| 0 <= a < b < r.len() implies key_lt(r[a].0, r[b].0) by {
            if b == i {
                assert(r[a].0 == es[a].0 && key_lt(es[a].0, k));
            } else if a == i {
                assert(r[b].0 == es[b].0 && key_lt(es[i].0, es[b].0));
            } else {
                let a0: int = if a < i { a } else { a };
                let b0: int = if b < i { b } else { b };
                assert(r[a].0 == es[a0].0 && r[b].0 == es[b0].0);
            }
        }
    } else {
        // the key sits strictly between the scanned prefix and the rest
        if i < es.len() {
            if !key_lt(k, es[i].0) {
                lemma_key_lt_connected(es[i].0, k);
            }
            assert(key_lt(k, es[i].0));
        }
        assert forall|j: int| 0 <= j < es.len() implies (#[trigger] es[j]).0 != k by {
            if j >= i {
                if j > i {
                    assert(key_lt(es[i as int].0, es[j].0));
                    lemma_key_lt_trans(k, es[i as int].0, es[j].0);
                }
                lemma_key_lt_ne(k, es[j].0);
            }
        }
        lemma_find_entry_none(es, k);
        let r = insert_entry(es, k, v);
        assert(r =~= es.take(i) + seq![(k, v)] + es.skip(i));
        assert forall|a: int, b: int| 0 <= a < b < r.len() implies key_lt(r[a].0, r[b].0) by {
            if b == i {
                assert(r[a].0 == es[a].0 && key_lt(es[a].0, k));
            } else if a == i {
                assert(r[b].0 == es[b - 1].0);
                if b - 1 > i {
                    assert(key_lt(es[i as int].0, es[b - 1].0));
                    lemma_key_lt_trans(k, es[i as int].0, es[b - 1].0);
                }
            } else if a < i && b > i {
                assert(r[a].0 == es[a].0 && r[b].0 == es[b - 1].0);
                if b - 1 == a {
                    assert(false);
                } else {
                    assert(key_lt(es[a].0, es[b - 1].0));
                }
            } else {
                let a0: int = if a < i { a } else { a - 1 };
                let b0: int = if b < i { b } else { b - 1 };
                assert(r[a].0 == es[a0].0 && r[b].0 == es[b0].0);
                assert(key_lt(es[a0].0, es[b0].0));
            }
        }
    }
}

pub proof fn lemma_remove_entry_shape<V>(es: Seq<(Seq<char>, V)>, k: Seq<char>, i: int)
    requires
        0 <= i < es.len(),
        es[i].0 == k,
        forall|j: int| 0 <= j < i ==> (#[trigger] es[j]).0 != k,
    ensures
        remove_entry(es, k) =~= es.take(i) + es.skip(i + 1),
        find_entry(es, k) == Option::Some(es[i].1),
    decreases i,
{
    lemma_find_entry_some(es, k, i);
    if i > 0 {
        lemma_remove_entry_shape(es.drop_first(), k, i - 1);
    }
}

pub proof fn lemma_remove_entry_absent<V>(es: Seq<(Seq<char>, V)>, k: Seq<char>)
    requires
        forall|j: int| 0 <= j < es.len() ==> (#[trigger] es[j]).0 != k,
    ensures
        remove_entry(es, k) =~= es,
        find_entry(es, k) is None,
    decreases es.len(),
{
    lemma_find_entry_none(es, k);
    if es.len() > 0 {
        lemma_remove_entry_absent(es.drop_first(), k);
        assert(remove_entry(es, k) =~= seq![es[0]] + remove_entry(es.drop_first(), k));
    }
}

/// Removing an entry from sorted entries keeps them sorted.
pub proof fn lemma_remove_sorted<V>(es: Seq<(Seq<char>, V)>, i: int)
    requires
        sorted_entries(es),
        0 <= i < es.len(),
    ensures
        sorted_entries(es.take(i) + es.skip(i + 1)),
{
    let r = es.take(i) + es.skip(i + 1);
    assert forall|a: int, b: int| 0 <= a < b < r.len() implies key_lt(r[a].0, r[b].0) by {
        let a0: int = if a < i { a } else { a + 1 };
        let b0: int = if b < i { b } else { b + 1 };
        assert(r[a].0 == es[a0].0 && r[b].0 == es[b0].0);
        assert(key_lt(es[a0].0, es[b0].0));
    }
}

/// Scans for `key`; reports its index and that no earlier entry holds it.
fn obj_find_idx(entries: &Vec<(String, Dynamic)>, key: &str) -> (r: Option<usize>)
    ensures
        match r {
            Option::Some(i) => i < entries@.len() && entries@[i as int].0@ == key@ && (forall|
                j: int,
            | 0 <= j < i ==> (#[trigger] entries@[j]).0@ != key@),
            Option::None => forall|j: int|
                0 <= j < entries@.len() ==> (#[trigger] entries@[j]).0@ != key@,
        },
{
    let mut i: usize = 0;
    while i < entries.len()
        invariant
            i <= entries@.len(),
            forall|j: int| 0 <= j < i ==> (#[trigger] entries@[j]).0@ != key@,
        decreases entries@.len() - i,
    {
        if str_eq(entries[i].0.as_str(), key) {
            return Some(i);
        }
        i += 1;
    }
    None
}

/// Inserts `(key, val)` into sorted entries, returning the value the key
/// held before, if any.
pub(crate) fn entries_set(entries: &mut Vec<(String, Dynamic)>, key: &str, val: Dynamic) -> (prev: Option<Dynamic>)
    requires
        sorted_entries(eview(old(entries)@)),
    ensures
        eview(final(entries)@) == insert_entry(eview(old(entries)@), key@, val@),
        sorted_entries(eview(final(entries)@)),
        match prev {
            Option::Some(d) => find_entry(eview(old(entries)@), key@) == Option::Some(d@),
            Option::None => find_entry(eview(old(entries)@), key@) is None,
        },
{
    let ghost es0 = eview(old(entries)@);
    let mut i: usize = 0;
    while i < entries.len() && str_key_lt(entries[i].0.as_str(), key)
        invariant
            i <= entries@.len(),
            entries@ == old(entries)@,
            forall|j: int| 0 <= j < i ==> key_lt((#[trigger] old(entries)@[j]).0@, key@),
        decreases entries@.len() - i,
    {
        i += 1;
    }
    proof {
        assert(es0.len() == old(entries)@.len());
        assert forall|j: int| 0 <= j < i implies key_lt((#[trigger] es0[j]).0, key@) by {
            lemma_eview_index(old(entries)@, j);
        }
        if i < entries@.len() {
            lemma_eview_index(old(entries)@, i as int);
        }
        lemma_insert_entry_at(es0, key@, val@, i as int);
    }
    if i < entries.len() && str_eq(entries[i].0.as_str(), key) {
        proof {
            lemma_eview_index(old(entries)@, i as int);
        }
        let prev = entries.remove(i);
        let ghost mid = entries@;
        let nk = key.to_owned();
        entries.insert(i, (nk, val));
        proof {
            let goal = es0.take(i as int) + seq![(key@, val@)] + es0.skip(i as int + 1);
            assert(entries@.len() == es0.len());
            assert forall|j: int| 0 <= j < eview(entries@).len() implies eview(entries@)[j]
                == goal[j] by {
                lemma_eview_index(entries@, j);
                if j < i {
                    assert(entries@[j] == mid[j]);
                    assert(mid[j] == old(entries)@[j]);
                    lemma_eview_index(old(entries)@, j);
                } else if j > i {
                    assert(entries@[j] == mid[j - 1]);
                    assert(mid[j - 1] == old(entries)@[j]);
                    lemma_eview_index(old(entries)@, j);
                } else {
                    assert(entries@[i as int].0@ == key@);
                    assert(entries@[i as int].1 == val);
                }
            }
            assert(eview(entries@) =~= goal);
            assert(prev == old(entries)@[i as int]);
        }
        Some(prev.1)
    } else {
        let nk = key.to_owned();
        entries.insert(i, (nk, val));
        proof {
            let goal = es0.take(i as int) + seq![(key@, val@)] + es0.skip(i as int);
            assert(entries@.len() == es0.len() + 1);
            assert forall|j: int| 0 <= j < eview(entries@).len() implies eview(entries@)[j]
                == goal[j] by {
                lemma_eview_index(entries@, j);
                if j < i {
                    assert(entries@[j] == old(entries)@[j]);
                    lemma_eview_index(old(entries)@, j);
                } else if j > i {
                    assert(entries@[j] == old(entries)@[j - 1]);
                    lemma_eview_index(old(entries)@, j - 1);
                } else {
                    assert(entries@[i as int].0@ == key@);
                    assert(entries@[i as int].1 == val);
                }
            }
            assert(eview(entries@) =~= goal);
        }
        None
    }
}

/// A copy of an entry vector whose view is the same entry sequence.
fn clone_entries(src: &Vec<(String, Dynamic)>) -> (r: Vec<(String, Dynamic)>)
    ensures
        eview(r@) == eview(src@),
{
    let mut r: Vec<(String, Dynamic)> = Vec::new();
    let mut i: usize = 0;
    while i < src.len()
        invariant
            i <= src@.len(),
            r@.len() == i,
            forall|j: int|
                0 <= j < i ==> (#[trigger] r@[j]).0@ == src@[j].0@ && r@[j].1@ == src@[j].1@,
        decreases src@.len() - i,
    {
        r.push((src[i].0.clone(), src[i].1.clone()));
        i += 1;
    }
    proof {
        assert forall|j: int| 0 <= j < eview(r@).len() implies eview(r@)[j] == eview(src@)[j] by {
            lemma_eview_index(r@, j);
            lemma_eview_index(src@, j);
        }
        assert(eview(r@) =~= eview(src@));
    }
    r
}

/// A copy of an array's backing vector whose view is the same value
/// sequence.
fn clone_items(src: &Vec<Dynamic>) -> (r: Vec<Dynamic>)
    ensures
        aview(r@) == aview(src@),
{
    let mut r: Vec<Dynamic> = Vec::new();
    let mut i: usize = 0;
    while i < src.len()
        invariant
            i <= src@.len(),
            r@.len() == i,
            forall|j: int| 0 <= j < i ==> (#[trigger] r@[j])@ == src@[j]@,
        decreases src@.len() - i,
    {
        r.push(src[i].clone());
        i += 1;
    }
    proof {
        assert forall|j: int| 0 <= j < aview(r@).len() implies aview(r@)[j] == aview(src@)[j] by {
            lemma_aview_index(r@, j);
            lemma_aview_index(src@, j);
        }
        assert(aview(r@) =~= aview(src@));
    }
    r
}

impl Clone for Dynamic {
    /// Cloning copies scalar payloads and string or byte contents, and for
    /// containers copies only the handle: the clone aliases the same
    /// backing container.
    fn clone(&self) -> (r: Self)
        ensures
            r@ == self@,
    {
        match self {
            Dynamic::Null => Dynamic::Null,
            Dynamic::Bool(b) => Dynamic::Bool(*b),
            Dynamic::Byte(b) => Dynamic::Byte(*b),
            Dynamic::Int(i) => Dynamic::Int(*i),
            Dynamic::UInt(u) => Dynamic::UInt(*u),
            Dynamic::Float(bits) => Dynamic::Float(*bits),
            Dynamic::Double(bits) => Dynamic::Double(*bits),
            Dynamic::Str(s) => Dynamic::Str(s.clone()),
            Dynamic::Arr(h) => Dynamic::Arr(*h),
            Dynamic::Obj(h) => Dynamic::Obj(*h),
            Dynamic::Bytes(b) => {
                let mut c: Vec<u8> = Vec::new();
                let mut i: usize = 0;
                while i < b.len()
                    invariant
                        i <= b@.len(),
                        c@ =~= b@.take(i as int),
                    decreases b@.len() - i,
                {
                    c.push(b[i]);
                    i += 1;
                }
                proof {
                    assert(b@.take(b@.len() as int) =~= b@);
                }
                Dynamic::Bytes(c)
            },
        }
    }
}

/// Pushing an empty object slot maps to pushing an empty entry sequence on
/// the view.
proof fn store_push_object_view(s0: StoreV, s1: StoreV)
    requires
        s1.objects == s0.objects.push(Seq::empty()),
        s1.arrays == s0.arrays,
        s0.wf(),
    ensures
        s1.wf(),
{
    assert forall|k: int| 0 <= k < s1.objects.len() implies sorted_entries(
        #[trigger] s1.objects[k],
    ) by {
        if k < s0.objects.len() {
            assert(s1.objects[k] == s0.objects[k]);
        } else {
            assert(s1.objects[k] =~= Seq::<(Seq<char>, Val)>::empty());
        }
    }
}

impl Dynamic {
    /// Wraps an existing vector of values as a new array handle.
    pub fn from_vec(store: &mut Store, vec: Vec<Dynamic>) -> (r: Dynamic)
        ensures
            final(store)@.arrays == old(store)@.arrays.push(aview(vec@)),
            final(store)@.objects == old(store)@.objects,
            r@ == Val::Arr(old(store)@.arrays.len() as int),
            old(store)@.wf() ==> final(store)@.wf(),
    {
        let h = store.arrays.len();
        store.arrays.push(vec);
        proof {
            assert(final(store)@.arrays =~= old(store)@.arrays.push(aview(
                final(store).arrays@[h as int]@,
            )));
            assert(final(store)@.objects =~= old(store)@.objects);
        }
        Dynamic::Arr(h)
    }

    /// Wraps existing key/value pairs as a new object handle; the pairs are
    /// inserted in order, a later pair overwriting an earlier one with the
    /// same key.
    pub fn from_map(store: &mut Store, entries: Vec<(String, Dynamic)>) -> (r: Dynamic)
        ensures
            final(store)@.objects == old(store)@.objects.push(entries_to_obj(eview(entries@))),
            final(store)@.arrays == old(store)@.arrays,
            r@ == Val::Obj(old(store)@.objects.len() as int),
            old(store)@.wf() ==> final(store)@.wf(),
    {
        let mut acc: Vec<(String, Dynamic)> = Vec::new();
        let mut i: usize = 0;
        proof {
            assert(eview(acc@) =~= Seq::<(Seq<char>, Val)>::empty());
            assert(eview(entries@).take(0) =~= Seq::<(Seq<char>, Val)>::empty());
        }
        while i < entries.len()
            invariant
                i <= entries@.len(),
                eview(acc@) == merge_entries(Seq::empty(), eview(entries@).take(i as int)),
                sorted_entries(eview(acc@)),
            decreases entries@.len() - i,
        {
            let val = entries[i].1.clone();
            let _ = entries_set(&mut acc, entries[i].0.as_str(), val);
            proof {
                lemma_eview_index(entries@, i as int);
                assert(eview(entries@).take(i as int + 1).drop_last() =~= eview(entries@).take(
                    i as int,
                ));
                assert(eview(entries@).take(i as int + 1).last() == eview(entries@)[i as int]);
            }
            i += 1;
        }
        proof {
            assert(eview(entries@).take(entries@.len() as int) =~= eview(entries@));
        }
        let h = store.objects.len();
        let ghost accv = eview(acc@);
        store.objects.push(acc);
        proof {
            assert(final(store)@.objects =~= old(store)@.objects.push(accv));
            assert(final(store)@.arrays =~= old(store)@.arrays);
            if old(store)@.wf() {
                assert forall|k: int| 0 <= k < final(store)@.objects.len() implies sorted_entries(
                    #[trigger] final(store)@.objects[k],
                ) by {
                    if k < old(store)@.objects.len() {
                        assert(final(store)@.objects[k] == old(store)@.objects[k]);
                    } else {
                        assert(final(store)@.objects[k] == accv);
                    }
                }
            }
        }
        Dynamic::Obj(h)
    }

    /// For two objects, merges every entry of `other` into `self`,
    /// overwriting on key collision; for two arrays, extends `self` with
    /// `other`'s elements in order. Fails with a type-mismatch error
    /// otherwise.
    pub fn append(&self, store: &mut Store, other: &Dynamic) -> (r: Result<(), DynError>)
        requires
            self.valid_in(old(store)@),
            other.valid_in(old(store)@),
            old(store)@.wf(),
        ensures
            final(store)@.wf(),
            match r {
                Ok(()) => ((self@ matches Val::Obj(h) && (other@ matches Val::Obj(h2) && final(store)@.objects == old(store)@.objects.update(
                    h,
                    merge_entries(old(store)@.objects[h], old(store)@.objects[h2]),
                ) && final(store)@.arrays == old(store)@.arrays)) || (self@ matches Val::Arr(h) && (
                other@ matches Val::Arr(h2) && final(store)@.arrays == old(store)@.arrays.update(
                    h,
                    old(store)@.arrays[h] + old(store)@.arrays[h2],
                ) && final(store)@.objects == old(store)@.objects))),
                Err(e) => e == DynError::TypeMismatch && final(store)@ == old(store)@ && !(self@ is Obj
                    && other@ is Obj) && !(self@ is Arr && other@ is Arr),
            },
    {
        match self {
            Dynamic::Obj(h) => match other {
                Dynamic::Obj(h2) => {
                    let more = clone_entries(&store.objects[*h2]);
                    let ghost es0 = old(store)@.objects[*h as int];
                    let ghost morev = eview(more@);
                    let mut i: usize = 0;
                    proof {
                        assert(morev.take(0) =~= Seq::<(Seq<char>, Val)>::empty());
                        assert(old(store)@.objects.update(*h as int, es0) =~= old(store)@.objects);
                    }
                    while i < more.len()
                        invariant
                            i <= more@.len(),
                            eview(more@) == morev,
                            0 <= (*h as int) < store@.objects.len(),
                            store@.objects.len() == old(store)@.objects.len(),
                            store@.arrays == old(store)@.arrays,
                            store@.objects == old(store)@.objects.update(
                                *h as int,
                                merge_entries(es0, morev.take(i as int)),
                            ),
                            store@.wf(),
                        decreases more@.len() - i,
                    {
                        let ghost preobjs = store@.objects;
                        let ghost preslot = store.objects@[*h as int]@;
                        let val = more[i].1.clone();
                        let ghost gval = val@;
                        proof {
                            assert(store@.objects[*h as int] == eview(preslot));
                            assert(sorted_entries(eview(preslot)));
                        }
                        let _ = entries_set(&mut store.objects[*h], more[i].0.as_str(), val);
                        proof {
                            lemma_eview_index(more@, i as int);
                            let gkey = morev[i as int].0;
                            assert(preobjs[*h as int] == eview(preslot));
                            assert(eview(store.objects@[*h as int]@) == insert_entry(
                                eview(preslot),
                                gkey,
                                gval,
                            ));
                            assert(store@.objects =~= preobjs.update(
                                *h as int,
                                insert_entry(preobjs[*h as int], gkey, gval),
                            ));
                            assert(morev.take(i as int + 1).drop_last() =~= morev.take(i as int));
                            assert(morev.take(i as int + 1).last() == morev[i as int]);
                            assert(merge_entries(es0, morev.take(i as int + 1)) == insert_entry(
                                merge_entries(es0, morev.take(i as int)),
                                gkey,
                                gval,
                            ));
                            assert(store@.objects =~= old(store)@.objects.update(
                                *h as int,
                                merge_entries(es0, morev.take(i as int + 1)),
                            ));
                            assert forall|k: int|
                                0 <= k < store@.objects.len() implies sorted_entries(
                                #[trigger] store@.objects[k],
                            ) by {
                                if k != *h as int {
                                    assert(store@.objects[k] == old(store)@.objects[k]);
                                }
                            }
                        }
                        i += 1;
                    }
                    proof {
                        assert(morev.take(more@.len() as int) =~= morev);
                    }
                    Ok(())
                },
                _ => Err(DynError::TypeMismatch),
            },
            Dynamic::Arr(h) => match other {
                Dynamic::Arr(h2) => {
                    let mut more = clone_items(&store.arrays[*h2]);
                    let ghost morev = aview(more@);
                    let ghost inner0 = store.arrays@[*h as int]@;
                    store.arrays[*h].append(&mut more);
                    proof {
                        assert(aview(store.arrays@[*h as int]@) =~= aview(inner0) + morev);
                        assert(final(store)@.arrays =~= old(store)@.arrays.update(
                            *h as int,
                            old(store)@.arrays[*h as int] + old(store)@.arrays[*h2 as int],
                        ));
                        assert(final(store)@.objects =~= old(store)@.objects);
                    }
                    Ok(())
                },
                _ => Err(DynError::TypeMismatch),
            },
            _ => Err(DynError::TypeMismatch),
        }
    }
}

/// IEEE equality of the scalar variants, content equality of strings and
/// byte buffers, and never-equal composite handles.
pub open spec fn val_eq(a: Val, b: Val) -> bool {
    match (a, b) {
        (Val::Null, Val::Null) => true,
        (Val::Bool(x), Val::Bool(y)) => x == y,
        (Val::Byte(x), Val::Byte(y)) => x == y,
        (Val::Int(x), Val::Int(y)) => x == y,
        (Val::UInt(x), Val::UInt(y)) => x == y,
        (Val::Float(x), Val::Float(y)) => crate::ieee::eq32(x, y),
        (Val::Double(x), Val::Double(y)) => crate::ieee::eq64(x, y),
        (Val::Str(x), Val::Str(y)) => x == y,
        (Val::Bytes(x), Val::Bytes(y)) => x == y,
        _ => false,
    }
}

impl PartialEq for Dynamic {
    /// Equality is defined for scalar variants (IEEE semantics on the two
    /// float variants) and for strings and byte buffers by content. An
    /// array or object handle equals nothing, not even itself: structural
    /// equality over shared mutable containers is deliberately undefined.
    fn eq(&self, other: &Self) -> (r: bool)
        ensures
            r == val_eq(self@, other@),
    {
        match (self, other) {
            (Dynamic::Null, Dynamic::Null) => true,
            (Dynamic::Bool(x), Dynamic::Bool(y)) => *x == *y,
            (Dynamic::Byte(x), Dynamic::Byte(y)) => *x == *y,
            (Dynamic::Int(x), Dynamic::Int(y)) => *x == *y,
            (Dynamic::UInt(x), Dynamic::UInt(y)) => *x == *y,
            (Dynamic::Float(x), Dynamic::Float(y)) => crate::ieee::eq32_exec(*x, *y),
            (Dynamic::Double(x), Dynamic::Double(y)) => crate::ieee::eq64_exec(*x, *y),
            (Dynamic::Str(x), Dynamic::Str(y)) => str_eq(x.as_str(), y.as_str()),
            (Dynamic::Bytes(x), Dynamic::Bytes(y)) => bytes_eq_exec(x.as_slice(), y.as_slice()),
            _ => false,
        }
    }
}

impl vstd::std_specs::cmp::PartialEqSpecImpl for Dynamic {
    open spec fn obeys_eq_spec() -> bool {
        true
    }

    open spec fn eq_spec(&self, other: &Self) -> bool {
        val_eq(self@, other@)
    }
}

impl Default for Dynamic {
    /// The default value is `Null`.
    fn default() -> (r: Self)
        ensures
            r@ == Val::Null,
    {
        Dynamic::Null
    }
}

impl From<String> for Dynamic {
    fn from(s: String) -> (r: Self) {
        Dynamic::Str(s)
    }
}

impl vstd::std_specs::convert::FromSpecImpl<String> for Dynamic {
    open spec fn obeys_from_spec() -> bool {
        true
    }

    open spec fn from_spec(v: String) -> Self {
        Dynamic::Str(v)
    }
}

impl From<bool> for Dynamic {
    fn from(b: bool) -> (r: Self) {
        Dynamic::Bool(b)
    }
}

impl vstd::std_specs::convert::FromSpecImpl<bool> for Dynamic {
    open spec fn obeys_from_spec() -> bool {
        true
    }

    open spec fn from_spec(v: bool) -> Self {
        Dynamic::Bool(v)
    }
}

impl From<i64> for Dynamic {
    fn from(i: i64) -> (r: Self) {
        Dynamic::Int(i)
    }
}

impl vstd::std_specs::convert::FromSpecImpl<i64> for Dynamic {
    open spec fn obeys_from_spec() -> bool {
        true
    }

    open spec fn from_spec(v: i64) -> Self {
        Dynamic::Int(v)
    }
}

impl Store {
    /// Read access to the backing vector of the array handle `h`.
    pub fn arr_slot(&self, h: usize) -> (r: &Vec<Dynamic>)
        requires
            (h as int) < self@.arrays.len(),
        ensures
            aview(r@) == self@.arrays[h as int],
    {
        &self.arrays[h]
    }

    /// How many object slots the store holds.
    pub fn objects_len(&self) -> (r: usize)
        ensures
            r == self@.objects.len(),
    {
        self.objects.len()
    }

    /// Adds a new object slot holding the given, already sorted, entries.
    pub fn push_object(&mut self, entries: Vec<(String, Dynamic)>)
        requires
            sorted_entries(eview(entries@)),
        ensures
            final(self)@.objects == old(self)@.objects.push(eview(entries@)),
            final(self)@.arrays == old(self)@.arrays,
            final(self)@.extends(old(self)@),
            old(self)@.wf() ==> final(self)@.wf(),
    {
        let ghost ev = eview(entries@);
        self.objects.push(entries);
        proof {
            assert(final(self)@.objects =~= old(self)@.objects.push(ev));
            assert(final(self)@.arrays =~= old(self)@.arrays);
            if old(self)@.wf() {
                assert forall|k: int| 0 <= k < final(self)@.objects.len() implies sorted_entries(
                    #[trigger] final(self)@.objects[k],
                ) by {
                    if k < old(self)@.objects.len() {
                        assert(final(self)@.objects[k] == old(self)@.objects[k]);
                    } else {
                        assert(final(self)@.objects[k] == ev);
                    }
                }
            }
        }
    }

    /// How many array slots the store holds.
    pub fn arrays_len(&self) -> (r: usize)
        ensures
            r == self@.arrays.len(),
    {
        self.arrays.len()
    }

    /// Adds a new array slot holding the given elements.
    pub fn push_array(&mut self, items: Vec<Dynamic>)
        ensures
            final(self)@.arrays == old(self)@.arrays.push(aview(items@)),
            final(self)@.objects == old(self)@.objects,
            final(self)@.extends(old(self)@),
            old(self)@.wf() ==> final(self)@.wf(),
    {
        let ghost av = aview(items@);
        self.arrays.push(items);
        proof {
            assert(final(self)@.arrays =~= old(self)@.arrays.push(av));
            assert(final(self)@.objects =~= old(self)@.objects);
        }
    }

    /// Read access to the backing entries of the object handle `h`.
    pub fn obj_slot(&self, h: usize) -> (r: &Vec<(String, Dynamic)>)
        requires
            (h as int) < self@.objects.len(),
        ensures
            eview(r@) == self@.objects[h as int],
    {
        &self.objects[h]
    }
}

/// A value snapshot: the mathematical tree that a `Dynamic` denotes in a
/// given store, with containers expanded. Only acyclic values have one.
pub enum Tree {
    Null,
    Bool(bool),
    Byte(u8),
    Int(i64),
    UInt(u64),
    /// IEEE 754 binary32 bit pattern.
    Float(u32),
    /// IEEE 754 binary64 bit pattern.
    Double(u64),
    Str(Seq<char>),
    Arr(Seq<Tree>),
    Obj(Seq<(Seq<char>, Tree)>),
    Bytes(Seq<u8>),
}

/// The value `v` denotes the snapshot `t` in store `s`: scalars match, and
/// a container handle's slot holds, entry by entry, values denoting the
/// snapshot's children.
pub open spec fn represents(s: StoreV, v: Val, t: Tree) -> bool
    decreases t,
{
    match t {
        Tree::Null => v == Val::Null,
        Tree::Bool(b) => v == Val::Bool(b),
        Tree::Byte(b) => v == Val::Byte(b),
        Tree::Int(i) => v == Val::Int(i),
        Tree::UInt(u) => v == Val::UInt(u),
        Tree::Float(f) => v == Val::Float(f),
        Tree::Double(d) => v == Val::Double(d),
        Tree::Str(cs) => v == Val::Str(cs),
        Tree::Bytes(bs) => v == Val::Bytes(bs),
        Tree::Arr(ts) => (v matches Val::Arr(h)) && (match v {
            Val::Arr(h) => 0 <= h < s.arrays.len() && s.arrays[h].len() == ts.len() && (forall|
                i: int,
            | 0 <= i < ts.len() ==> represents(s, s.arrays[h][i], #[trigger] ts[i])),
            _ => false,
        }),
        Tree::Obj(es) => (v matches Val::Obj(h)) && (match v {
            Val::Obj(h) => 0 <= h < s.objects.len() && s.objects[h].len() == es.len() && (forall|
                i: int,
            | 0 <= i < es.len() ==> s.objects[h][i].0 == (#[trigger] es[i]).0 && represents(
                s,
                s.objects[h][i].1,
                es[i].1,
            )),
            _ => false,
        }),
    }
}

/// The value has a snapshot: it is acyclic and its handles are in range.
pub open spec fn has_tree(s: StoreV, v: Val) -> bool {
    exists|t: Tree| represents(s, v, t)
}

/// The snapshot of a value; meaningful when `has_tree(s, v)` holds, in
/// which case it is unique.
pub open spec fn tree_of(s: StoreV, v: Val) -> Tree {
    choose|t: Tree| represents(s, v, t)
}

/// A value denotes at most one snapshot.
pub proof fn lemma_represents_unique(s: StoreV, v: Val, t1: Tree, t2: Tree)
    requires
        represents(s, v, t1),
        represents(s, v, t2),
    ensures
        t1 == t2,
    decreases t1,
{
    match t1 {
        Tree::Arr(ts1) => {
            let ts2 = t2->Arr_0;
            assert forall|i: int| 0 <= i < ts1.len() implies #[trigger] ts1[i] == ts2[i] by {
                let h = v->Arr_0;
                lemma_represents_unique(s, s.arrays[h][i], ts1[i], ts2[i]);
            }
            assert(ts1 =~= ts2);
        },
        Tree::Obj(es1) => {
            let es2 = t2->Obj_0;
            assert forall|i: int| 0 <= i < es1.len() implies #[trigger] es1[i] == es2[i] by {
                let h = v->Obj_0;
                lemma_represents_unique(s, s.objects[h][i].1, es1[i].1, es2[i].1);
                assert(es1[i].0 == s.objects[h][i].0 && es2[i].0 == s.objects[h][i].0);
            }
            assert(es1 =~= es2);
        },
        _ => {},
    }
}

/// Snapshots survive store growth: a store extension denotes the same
/// trees for existing values.
pub proof fn lemma_represents_frame(s: StoreV, s2: StoreV, v: Val, t: Tree)
    requires
        represents(s, v, t),
        s2.extends(s),
    ensures
        represents(s2, v, t),
    decreases t,
{
    match t {
        Tree::Arr(ts) => {
            let h = v->Arr_0;
            assert(s2.arrays[h] == s.arrays[h]);
            assert forall|i: int| 0 <= i < ts.len() implies represents(
                s2,
                s2.arrays[h][i],
                #[trigger] ts[i],
            ) by {
                lemma_represents_frame(s, s2, s.arrays[h][i], ts[i]);
            }
        },
        Tree::Obj(es) => {
            let h = v->Obj_0;
            assert(s2.objects[h] == s.objects[h]);
            assert forall|i: int| 0 <= i < es.len() implies s2.objects[h][i].0 == (
            #[trigger] es[i]).0 && represents(s2, s2.objects[h][i].1, es[i].1) by {
                lemma_represents_frame(s, s2, s.objects[h][i].1, es[i].1);
            }
        },
        _ => {},
    }
}

/// A store extends itself.
pub proof fn lemma_extends_refl(s: StoreV)
    ensures
        s.extends(s),
{
}

/// Store extension is transitive.
pub proof fn lemma_extends_trans(s1: StoreV, s2: StoreV, s3: StoreV)
    requires
        s2.extends(s1),
        s3.extends(s2),
    ensures
        s3.extends(s1),
{
}

/// Entry sequences over values and over snapshots correspond: same keys in
/// the same positions, each value denoting the paired snapshot.
pub open spec fn entries_rep(
    s: StoreV,
    ev: Seq<(Seq<char>, Val)>,
    et: Seq<(Seq<char>, Tree)>,
) -> bool {
    ev.len() == et.len() && (forall|i: int|
        0 <= i < ev.len() ==> (#[trigger] ev[i]).0 == et[i].0 && represents(s, ev[i].1, et[i].1))
}

/// Inserting corresponding entries into corresponding sequences keeps them
/// corresponding: the insertion position is decided by keys alone.
pub proof fn lemma_insert_corresponds(
    s: StoreV,
    ev: Seq<(Seq<char>, Val)>,
    et: Seq<(Seq<char>, Tree)>,
    k: Seq<char>,
    vv: Val,
    vt: Tree,
)
    requires
        entries_rep(s, ev, et),
        represents(s, vv, vt),
    ensures
        entries_rep(s, insert_entry(ev, k, vv), insert_entry(et, k, vt)),
    decreases ev.len(),
{
    let rv = insert_entry(ev, k, vv);
    let rt = insert_entry(et, k, vt);
    if ev.len() == 0 {
        assert(entries_rep(s, rv, rt));
    } else {
        assert(ev[0].0 == et[0].0);
        if ev[0].0 == k {
            assert forall|i: int| 0 <= i < rv.len() implies (#[trigger] rv[i]).0 == rt[i].0
                && represents(s, rv[i].1, rt[i].1) by {
                if i > 0 {
                    assert(rv[i] == ev[i] && rt[i] == et[i]);
                }
            }
        } else if key_lt(k, ev[0].0) {
            assert forall|i: int| 0 <= i < rv.len() implies (#[trigger] rv[i]).0 == rt[i].0
                && represents(s, rv[i].1, rt[i].1) by {
                if i > 0 {
                    assert(rv[i] == ev[i - 1] && rt[i] == et[i - 1]);
                }
            }
        } else {
            assert(entries_rep(s, ev.drop_first(), et.drop_first())) by {
                assert forall|i: int|
                    0 <= i < ev.drop_first().len() implies (#[trigger] ev.drop_first()[i]).0
                    == et.drop_first()[i].0 && represents(
                    s,
                    ev.drop_first()[i].1,
                    et.drop_first()[i].1,
                ) by {
                    assert(ev.drop_first()[i] == ev[i + 1] && et.drop_first()[i] == et[i + 1]);
                }
            }
            lemma_insert_corresponds(s, ev.drop_first(), et.drop_first(), k, vv, vt);
            let dv = insert_entry(ev.drop_first(), k, vv);
            let dt = insert_entry(et.drop_first(), k, vt);
            assert forall|i: int| 0 <= i < rv.len() implies (#[trigger] rv[i]).0 == rt[i].0
                && represents(s, rv[i].1, rt[i].1) by {
                if i == 0 {
                    assert(rv[0] == ev[0] && rt[0] == et[0]);
                } else {
                    assert(rv[i] == dv[i - 1] && rt[i] == dt[i - 1]);
                }
            }
        }
    }
}

/// Correspondence survives store growth.
pub proof fn lemma_entries_rep_frame(
    s: StoreV,
    s2: StoreV,
    ev: Seq<(Seq<char>, Val)>,
    et: Seq<(Seq<char>, Tree)>,
)
    requires
        entries_rep(s, ev, et),
        s2.extends(s),
    ensures
        entries_rep(s2, ev, et),
{
    assert forall|i: int| 0 <= i < ev.len() implies (#[trigger] ev[i]).0 == et[i].0 && represents(
        s2,
        ev[i].1,
        et[i].1,
    ) by {
        lemma_represents_frame(s, s2, ev[i].1, et[i].1);
    }
}

/// Relies on core's str::from_utf8 and str::to_owned: `Some` exactly when
/// the bytes are valid UTF-8, holding the characters they decode to.
#[verifier::external_body]
pub(crate) fn utf8_to_string(bytes: &[u8]) -> (r: Option<String>)
    ensures
        match r {
            Option::Some(s) => vstd::utf8::valid_utf8(bytes@) && s@ == vstd::utf8::decode_utf8(
                bytes@,
            ),
            Option::None => !vstd::utf8::valid_utf8(bytes@),
        },
{
    match core::str::from_utf8(bytes) {
        Ok(s) => Some(s.to_owned()),
        Err(_) => None,
    }
}

impl Dynamic {
    /// Validates `bytes` as UTF-8 and wraps them as a `Str` value; an
    /// invalid-UTF-8 error otherwise. String content is always valid UTF-8.
    pub fn try_from_utf8(bytes: &[u8]) -> (r: Result<Dynamic, DynError>)
        ensures
            match r {
                Ok(d) => vstd::utf8::valid_utf8(bytes@) && d@ == Val::Str(
                    vstd::utf8::decode_utf8(bytes@),
                ),
                Err(e) => e == DynError::InvalidUtf8 && !vstd::utf8::valid_utf8(bytes@),
            },
    {
        match utf8_to_string(bytes) {
            Some(s) => Ok(Dynamic::Str(s)),
            None => Err(DynError::InvalidUtf8),
        }
    }
}

} // verus!
