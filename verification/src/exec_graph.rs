//! A typed execution graph: a storage of write-once cells addressed by typed
//! variables, and operations that read some cells and write others.

use vstd::prelude::*;
use std::marker::PhantomData;
use std::rc::Rc;

verus! {

/// Typed address of a cell of a storage.
pub struct Var<T> {
    addr: usize,
    storage: u64,
    _marker: PhantomData<T>,
}

impl<T> Clone for Var<T> {
    fn clone(&self) -> (r: Self)
        ensures
            r == *self,
    {
        Var { addr: self.addr, storage: self.storage, _marker: PhantomData }
    }
}

impl<T> Copy for Var<T> {}

impl<T> Var<T> {
    /// Position of the cell.
    pub closed spec fn addr(&self) -> nat {
        self.addr as nat
    }

    /// Identifier of the storage the variable belongs to.
    pub closed spec fn storage_uid(&self) -> u64 {
        self.storage
    }
}

/// A value held by a cell.
#[derive(Clone, Copy, PartialEq, Eq, Structural, Debug)]
pub enum AnyValue {
    I32(i32),
    I64(i64),
    U32(u32),
    U64(u64),
    Usize(usize),
    Bool(bool),
}

/// Types whose values cells can hold.
pub trait Storable: Sized {
    /// The cell value of `self`.
    spec fn to_any(self) -> AnyValue;

    /// The value a cell holds, when it is of this type.
    spec fn of_any(v: AnyValue) -> Option<Self>;

    /// Reading back what was stored gives the value stored.
    proof fn lemma_roundtrip(x: Self)
        ensures
            Self::of_any(x.to_any()) == Some(x),
    ;

    fn into_any(self) -> (r: AnyValue)
        ensures
            r == self.to_any(),
    ;

    fn from_any(v: &AnyValue) -> (r: Option<Self>)
        ensures
            r == Self::of_any(*v),
    ;
}

impl Storable for i32 {
    open spec fn to_any(self) -> AnyValue {
        AnyValue::I32(self)
    }

    open spec fn of_any(v: AnyValue) -> Option<i32> {
        match v {
            AnyValue::I32(x) => Some(x),
            _ => None,
        }
    }

    proof fn lemma_roundtrip(x: i32) {
    }

    fn into_any(self) -> (r: AnyValue) {
        AnyValue::I32(self)
    }

    fn from_any(v: &AnyValue) -> (r: Option<i32>) {
        match v {
            AnyValue::I32(x) => Some(*x),
            _ => None,
        }
    }
}

impl Storable for i64 {
    open spec fn to_any(self) -> AnyValue {
        AnyValue::I64(self)
    }

    open spec fn of_any(v: AnyValue) -> Option<i64> {
        match v {
            AnyValue::I64(x) => Some(x),
            _ => None,
        }
    }

    proof fn lemma_roundtrip(x: i64) {
    }

    fn into_any(self) -> (r: AnyValue) {
        AnyValue::I64(self)
    }

    fn from_any(v: &AnyValue) -> (r: Option<i64>) {
        match v {
            AnyValue::I64(x) => Some(*x),
            _ => None,
        }
    }
}

impl Storable for u32 {
    open spec fn to_any(self) -> AnyValue {
        AnyValue::U32(self)
    }

    open spec fn of_any(v: AnyValue) -> Option<u32> {
        match v {
            AnyValue::U32(x) => Some(x),
            _ => None,
        }
    }

    proof fn lemma_roundtrip(x: u32) {
    }

    fn into_any(self) -> (r: AnyValue) {
        AnyValue::U32(self)
    }

    fn from_any(v: &AnyValue) -> (r: Option<u32>) {
        match v {
            AnyValue::U32(x) => Some(*x),
            _ => None,
        }
    }
}

impl Storable for u64 {
    open spec fn to_any(self) -> AnyValue {
        AnyValue::U64(self)
    }

    open spec fn of_any(v: AnyValue) -> Option<u64> {
        match v {
            AnyValue::U64(x) => Some(x),
            _ => None,
        }
    }

    proof fn lemma_roundtrip(x: u64) {
    }

    fn into_any(self) -> (r: AnyValue) {
        AnyValue::U64(self)
    }

    fn from_any(v: &AnyValue) -> (r: Option<u64>) {
        match v {
            AnyValue::U64(x) => Some(*x),
            _ => None,
        }
    }
}

impl Storable for usize {
    open spec fn to_any(self) -> AnyValue {
        AnyValue::Usize(self)
    }

    open spec fn of_any(v: AnyValue) -> Option<usize> {
        match v {
            AnyValue::Usize(x) => Some(x),
            _ => None,
        }
    }

    proof fn lemma_roundtrip(x: usize) {
    }

    fn into_any(self) -> (r: AnyValue) {
        AnyValue::Usize(self)
    }

    fn from_any(v: &AnyValue) -> (r: Option<usize>) {
        match v {
            AnyValue::Usize(x) => Some(*x),
            _ => None,
        }
    }
}

impl Storable for bool {
    open spec fn to_any(self) -> AnyValue {
        AnyValue::Bool(self)
    }

    open spec fn of_any(v: AnyValue) -> Option<bool> {
        match v {
            AnyValue::Bool(x) => Some(x),
            _ => None,
        }
    }

    proof fn lemma_roundtrip(x: bool) {
    }

    fn into_any(self) -> (r: AnyValue) {
        AnyValue::Bool(self)
    }

    fn from_any(v: &AnyValue) -> (r: Option<bool>) {
        match v {
            AnyValue::Bool(x) => Some(*x),
            _ => None,
        }
    }
}

/// A cell at `addr` that belongs to the storage `uid` may be read as a `T`:
/// it exists, and it is empty or holds a `T`.
pub open spec fn readable_as<T: Storable>(cells: Seq<Option<AnyValue>>, uid: u64, addr: Var<T>) -> bool {
    &&& addr.storage_uid() == uid
    &&& addr.addr() < cells.len()
    &&& cells[addr.addr() as int] matches Some(v) ==> T::of_any(v) is Some
}

/// A storage of write-once typed cells.
pub trait Storage: Sized {
    /// The cells.
    spec fn cells(&self) -> Seq<Option<AnyValue>>;

    /// The identifier variables of this storage carry.
    spec fn spec_uid(&self) -> u64;

    fn new() -> (r: Self)
        ensures
            r.cells() == Seq::<Option<AnyValue>>::empty(),
    ;

    /// Allocates an empty cell.
    fn allocate<T: Storable>(&mut self) -> (r: Var<T>)
        requires
            old(self).cells().len() < usize::MAX,
        ensures
            final(self).cells() == old(self).cells().push(None),
            final(self).spec_uid() == old(self).spec_uid(),
            r.addr() == old(self).cells().len(),
            r.storage_uid() == old(self).spec_uid(),
    ;

    /// Reads a cell: `None` while it is empty.
    fn get<T: Storable>(&self, addr: Var<T>) -> (r: Option<Rc<T>>)
        requires
            readable_as(self.cells(), self.spec_uid(), addr),
        ensures
            r is Some <==> self.cells()[addr.addr() as int] is Some,
            r matches Some(x) ==> Some(*x) == T::of_any(self.cells()[addr.addr() as int]->0),
    ;

    /// Writes an empty cell; a cell that holds a value is left unchanged
    /// and the write fails.
    fn set<T: Storable>(&mut self, value: T, addr: Var<T>) -> (r: Result<(), String>)
        requires
            addr.storage_uid() == old(self).spec_uid(),
            addr.addr() < old(self).cells().len(),
        ensures
            r is Err <==> old(self).cells()[addr.addr() as int] is Some,
            r is Ok ==> final(self).cells() == old(self).cells().update(addr.addr() as int, Some(value.to_any())),
            r is Err ==> final(self).cells() == old(self).cells(),
            final(self).spec_uid() == old(self).spec_uid(),
    ;

    /// Overwrites a cell that holds a value of the same type.
    fn replace<T: Storable>(&mut self, value: T, addr: Var<T>)
        requires
            readable_as(old(self).cells(), old(self).spec_uid(), addr),
            old(self).cells()[addr.addr() as int] is Some,
        ensures
            final(self).cells() == old(self).cells().update(addr.addr() as int, Some(value.to_any())),
            final(self).spec_uid() == old(self).spec_uid(),
    ;

    fn uid(&self) -> (r: u64)
        ensures
            r == self.spec_uid(),
    ;
}

/// Storage whose cells hold values of any storable type.
pub struct AnyData {
    data: Vec<Option<AnyValue>>,
    uid: u64,
}

impl Storage for AnyData {
    closed spec fn cells(&self) -> Seq<Option<AnyValue>> {
        self.data@
    }

    closed spec fn spec_uid(&self) -> u64 {
        self.uid
    }

    fn new() -> (r: Self) {
        Self { data: Vec::new(), uid: 0 }
    }

    fn allocate<T: Storable>(&mut self) -> (r: Var<T>) {
        self.data.push(None);
        Var { addr: self.data.len() - 1, storage: self.uid, _marker: PhantomData }
    }

    fn get<T: Storable>(&self, addr: Var<T>) -> (r: Option<Rc<T>>) {
        match &self.data[addr.addr] {
            None => None,
            Some(value) => {
                let v = T::from_any(value).unwrap();
                Some(Rc::new(v))
            },
        }
    }

    fn set<T: Storable>(&mut self, value: T, addr: Var<T>) -> (r: Result<(), String>) {
        if self.data[addr.addr].is_some() {
            Err(String::from_str("The value is already set."))
        } else {
            self.data.set(addr.addr, Some(value.into_any()));
            Ok(())
        }
    }

    fn replace<T: Storable>(&mut self, value: T, addr: Var<T>) {
        self.data.set(addr.addr, Some(value.into_any()));
    }

    fn uid(&self) -> (r: u64) {
        self.uid
    }
}

/// An operation of the graph, run on a storage.
pub trait Operation<Stor: Storage> {
    /// The operation can run on `st` without failing; an operation that says
    /// nothing more may run anywhere.
    open spec fn can_run(&self, st: &Stor) -> bool {
        true
    }

    /// Running the operation turns `before` into `after`; an operation that
    /// says nothing more promises nothing of the result.
    open spec fn ran(&self, before: &Stor, after: &Stor) -> bool {
        true
    }

    fn run(&self, st: &mut Stor)
        requires
            self.can_run(old(st)),
        ensures
            self.ran(old(st), final(st)),
    ;
}

/// Operation that applies `f` to the value of `inp` and writes the result to `out`.
pub struct SimpleOperation<Inp, Out, Fun> {
    pub inp: Var<Inp>,
    pub out: Var<Out>,
    pub f: Fun,
}

impl<Inp: Storable, Out: Storable, Stor: Storage, Fun: Fn(&Inp) -> Out> Operation<Stor> for SimpleOperation<
    Inp,
    Out,
    Fun,
> {
    open spec fn can_run(&self, st: &Stor) -> bool {
        &&& readable_as(st.cells(), st.spec_uid(), self.inp)
        &&& st.cells()[self.inp.addr() as int] is Some
        &&& call_requires(self.f, (&Inp::of_any(st.cells()[self.inp.addr() as int]->0)->0,))
        &&& self.out.storage_uid() == st.spec_uid()
        &&& self.out.addr() < st.cells().len()
        &&& st.cells()[self.out.addr() as int] is None
    }

    open spec fn ran(&self, before: &Stor, after: &Stor) -> bool {
        exists|v: Out|
            call_ensures(self.f, (&Inp::of_any(before.cells()[self.inp.addr() as int]->0)->0,), v) && after.cells()
                == before.cells().update(self.out.addr() as int, Some(#[trigger] v.to_any()))
    }

    fn run(&self, st: &mut Stor) {
        let in_value = st.get(self.inp).unwrap();
        let out_value = (self.f)(&*in_value);
        let r = st.set(out_value, self.out);
    }
}

/// Operation that reads `inp`, applies `f` and writes `out`.
pub fn construct_operation_simple<Inp: Storable, Out: Storable, Stor: Storage, Fun: Fn(&Inp) -> Out>(
    inp: Var<Inp>,
    out: Var<Out>,
    f: Fun,
) -> (r: SimpleOperation<Inp, Out, Fun>)
    ensures
        r.inp == inp,
        r.out == out,
        r.f == f,
{
    SimpleOperation { inp, out, f }
}

/// A list of operations over a storage, run one at a time by index.
pub struct Execution<Stor, Op> {
    pub operations: Vec<Op>,
    pub storage: Stor,
}

impl<Stor: Storage, Op: Operation<Stor>> Execution<Stor, Op> {
    pub fn storage(&mut self) -> (r: &mut Stor)
        ensures
            *r == old(self).storage,
            final(self).storage == *final(r),
            final(self).operations == old(self).operations,
    {
        &mut self.storage
    }

    pub fn op_push(&mut self, s: Op)
        ensures
            final(self).operations@ == old(self).operations@.push(s),
            final(self).storage == old(self).storage,
    {
        self.operations.push(s);
    }

    /// Runs operation `i` on the storage.
    pub fn exec(&mut self, i: usize)
        requires
            i < old(self).operations@.len(),
            old(self).operations@[i as int].can_run(&old(self).storage),
        ensures
            final(self).operations == old(self).operations,
            old(self).operations@[i as int].ran(&old(self).storage, &final(self).storage),
    {
        let op = &self.operations[i];
        op.run(&mut self.storage);
    }
}

} // verus!
