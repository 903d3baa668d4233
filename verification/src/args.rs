//! The arguments of a message: their values, and the lists that hold them.

use crate::basics::{ByteOrder, Fd, MAX_ARGS};
use crate::chunk::{array_words, i32_word};
use crate::protocol::{InterfaceId, Type};
use smallvec::SmallVec;
use vstd::prelude::*;

verus! {

/// The value of an argument. A string is held without the zero byte that ends it on the wire. A
/// file descriptor is an index into those of the message.
#[derive(Debug)]
pub enum ArgData {
    Int(i32),
    Uint(u32),
    Fixed(i32),
    String(Vec<u8>),
    Object(u32),
    NewId { id: u32, interface: InterfaceId },
    Array(Vec<u8>),
    Fd { index: usize },
}

/// The contents of an [`ArgData`].
#[verifier::ext_equal]
pub enum ArgDataV {
    Int(i32),
    Uint(u32),
    Fixed(i32),
    String(Seq<u8>),
    Object(u32),
    NewId { id: u32, interface: InterfaceId },
    Array(Seq<u8>),
    Fd { index: nat },
}

impl View for ArgData {
    type V = ArgDataV;

    open spec fn view(&self) -> ArgDataV {
        match self {
            ArgData::Int(i) => ArgDataV::Int(*i),
            ArgData::Uint(u) => ArgDataV::Uint(*u),
            ArgData::Fixed(f) => ArgDataV::Fixed(*f),
            ArgData::String(s) => ArgDataV::String(s@),
            ArgData::Object(o) => ArgDataV::Object(*o),
            ArgData::NewId { id, interface } => ArgDataV::NewId { id: *id, interface: *interface },
            ArgData::Array(a) => ArgDataV::Array(a@),
            ArgData::Fd { index } => ArgDataV::Fd { index: *index as nat },
        }
    }
}

impl ArgDataV {
    /// The type that a value is of.
    pub open spec fn typ(self) -> Type {
        match self {
            ArgDataV::Int(_) => Type::Int,
            ArgDataV::Uint(_) => Type::Uint,
            ArgDataV::Fixed(_) => Type::Fixed,
            ArgDataV::String(_) => Type::String,
            ArgDataV::Object(_) => Type::Object,
            ArgDataV::NewId { .. } => Type::NewId,
            ArgDataV::Array(_) => Type::Array,
            ArgDataV::Fd { .. } => Type::Fd,
        }
    }

    /// The words that stand for a value in a message. A file descriptor travels apart from them.
    pub open spec fn words(self, order: ByteOrder) -> Seq<u32> {
        match self {
            ArgDataV::Int(i) => seq![i32_word(i)],
            ArgDataV::Uint(u) => seq![u],
            ArgDataV::Fixed(f) => seq![i32_word(f)],
            ArgDataV::String(s) => array_words(order, s.push(0)),
            ArgDataV::Object(o) => seq![o],
            ArgDataV::NewId { id, .. } => seq![id],
            ArgDataV::Array(a) => array_words(order, a),
            ArgDataV::Fd { .. } => Seq::empty(),
        }
    }
}

impl ArgData {
    /// The type that a value is of.
    pub fn typ(&self) -> (r: Type)
        ensures
            r == self@.typ(),
    {
        match self {
            ArgData::Int(_) => Type::Int,
            ArgData::Uint(_) => Type::Uint,
            ArgData::Fixed(_) => Type::Fixed,
            ArgData::String(_) => Type::String,
            ArgData::Object(_) => Type::Object,
            ArgData::NewId { .. } => Type::NewId,
            ArgData::Array(_) => Type::Array,
            ArgData::Fd { .. } => Type::Fd,
        }
    }
}

/// The contents of a list of values.
pub open spec fn values(items: Seq<ArgData>) -> Seq<ArgDataV> {
    Seq::new(items.len(), |i: int| items[i]@)
}

/// The words that stand for a list of values in a message.
pub open spec fn body_words(order: ByteOrder, args: Seq<ArgDataV>) -> Seq<u32>
    decreases args.len(),
{
    if args.len() == 0 {
        Seq::empty()
    } else {
        body_words(order, args.drop_last()) + args.last().words(order)
    }
}

/// A list of argument values, of which two fit without an allocation of their own.
#[verifier::external_body]
#[derive(Debug)]
pub struct ArgVec {
    inner: SmallVec<[ArgData; 2]>,
}

/// The values that a list holds.
pub uninterp spec fn arg_items(args: ArgVec) -> Seq<ArgData>;

impl View for ArgVec {
    type V = Seq<ArgDataV>;

    open spec fn view(&self) -> Seq<ArgDataV> {
        values(arg_items(*self))
    }
}

/// Calls `SmallVec::with_capacity`: a list that holds nothing.
#[verifier::external_body]
pub(crate) fn args_with_capacity(capacity: usize) -> (r: ArgVec)
    requires
        capacity <= MAX_ARGS,
    ensures
        arg_items(r) == Seq::<ArgData>::empty(),
{
    ArgVec { inner: SmallVec::with_capacity(capacity) }
}

/// Calls `SmallVec::push`, which adds a value at the end.
#[verifier::external_body]
pub(crate) fn args_push(args: &mut ArgVec, arg: ArgData)
    ensures
        arg_items(*final(args)) == arg_items(*old(args)).push(arg),
{
    args.inner.push(arg);
}

/// Calls `SmallVec::len`: how many values a list holds.
#[verifier::external_body]
pub(crate) fn args_len(args: &ArgVec) -> (r: usize)
    ensures
        r == arg_items(*args).len(),
{
    args.inner.len()
}

/// Calls `SmallVec::as_slice`: the values of a list, in order.
#[verifier::external_body]
pub(crate) fn args_slice(args: &ArgVec) -> (r: &[ArgData])
    ensures
        r@ == arg_items(*args),
{
    args.inner.as_slice()
}

/// Calls `SmallVec::as_mut_slice`: the values of a list, in order, each of which can be replaced.
#[verifier::external_body]
pub(crate) fn args_mut_slice(args: &mut ArgVec) -> (r: &mut [ArgData])
    ensures
        r@ == arg_items(*old(args)),
        arg_items(*final(args)) == final(r)@,
        final(r)@.len() == r@.len(),
{
    args.inner.as_mut_slice()
}

/// A list of file descriptors, of which two fit without an allocation of their own.
#[verifier::external_body]
#[derive(Debug)]
pub struct FdVec {
    inner: SmallVec<[Fd; 2]>,
}

/// The file descriptors that a list holds.
pub uninterp spec fn fd_items(fds: FdVec) -> Seq<Fd>;

impl View for FdVec {
    type V = Seq<Fd>;

    open spec fn view(&self) -> Seq<Fd> {
        fd_items(*self)
    }
}

/// Calls `SmallVec::with_capacity`: a list that holds nothing.
#[verifier::external_body]
pub(crate) fn fds_with_capacity(capacity: usize) -> (r: FdVec)
    requires
        capacity <= MAX_ARGS,
    ensures
        fd_items(r) == Seq::<Fd>::empty(),
{
    FdVec { inner: SmallVec::with_capacity(capacity) }
}

/// Calls `SmallVec::push`, which adds a file descriptor at the end.
#[verifier::external_body]
pub(crate) fn fds_push(fds: &mut FdVec, fd: Fd)
    ensures
        fd_items(*final(fds)) == fd_items(*old(fds)).push(fd),
{
    fds.inner.push(fd);
}

/// Calls `SmallVec::len`: how many file descriptors a list holds.
#[verifier::external_body]
pub(crate) fn fds_len(fds: &FdVec) -> (r: usize)
    ensures
        r == fd_items(*fds).len(),
{
    fds.inner.len()
}

/// Calls `SmallVec::as_slice`: the file descriptors of a list, in order.
#[verifier::external_body]
pub(crate) fn fds_slice(fds: &FdVec) -> (r: &[Fd])
    ensures
        r@ == fd_items(*fds),
{
    fds.inner.as_slice()
}

/// Calls `SmallVec::into_vec`: the file descriptors of a list, in order.
#[verifier::external_body]
pub(crate) fn fds_into_vec(fds: FdVec) -> (r: Vec<Fd>)
    ensures
        r@ == fd_items(fds),
{
    fds.inner.into_vec()
}

} // verus!
