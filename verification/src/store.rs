use vstd::prelude::*;

verus! {

/// Append-only store of byte sequences with a null marker, in insertion order.
///
/// It owns an `arrow` byte-view builder, which keeps one copy of every stored
/// sequence and hands the buffers to the finished array without copying them.
/// The builder is a collection of an outside crate, so the struct is opaque to
/// the verifier and every operation below is a trusted wrapper: its contract
/// states, over `store_seq`, what the builder's source shows.
#[verifier::external_body]
pub struct ValueStore {
    builder: arrow::array::GenericByteViewBuilder<arrow::datatypes::BinaryViewType>,
}

/// The sequences a `ValueStore` holds, in insertion order; `None` marks a
/// position filled by `append_null`.
pub uninterp spec fn store_seq(s: ValueStore) -> Seq<Option<Seq<u8>>>;

/// The logical contents of a finished array, in the stored order.
pub uninterp spec fn array_seq(a: FinishedArray) -> Seq<Option<Seq<u8>>>;

/// The distinct values, emitted by `ArrowBytesViewMap::into_state` as an
/// `arrow` binary-view array that reuses the store's buffers (zero copy).
///
/// The struct is opaque to the verifier; `array_seq` names its contents.
/// Unverified callers may take the array itself out of `inner`.
#[verifier::external_body]
pub struct FinishedArray {
    pub inner: arrow::array::BinaryViewArray,
}

impl ValueStore {
    /// Relies on arrow's `GenericByteViewBuilder::new`: a builder with no
    /// elements.
    #[verifier::external_body]
    pub(crate) fn new() -> (s: Self)
        ensures
            store_seq(s) == Seq::<Option<Seq<u8>>>::empty(),
    {
        ValueStore { builder: arrow::array::GenericByteViewBuilder::new() }
    }

    /// Relies on arrow's `ArrayBuilder::len` for `GenericByteViewBuilder`:
    /// the number of appended elements, nulls included.
    #[verifier::external_body]
    pub(crate) fn len(&self) -> (n: usize)
        ensures
            n == store_seq(*self).len(),
    {
        arrow::array::ArrayBuilder::len(&self.builder)
    }

    /// Relies on arrow's `GenericByteViewBuilder::append_value`: appends one
    /// non-null element holding exactly the given bytes. The bounds keep the
    /// builder away from its `u32::MAX` limits on value length and on block
    /// count, past which it panics.
    #[verifier::external_body]
    pub(crate) fn append_value(&mut self, value: &[u8])
        requires
            store_seq(*old(self)).len() < 0xFFFF_FFFEusize,
            value@.len() < 0x4000_0000usize,
        ensures
            store_seq(*final(self)) == store_seq(*old(self)).push(Some(value@)),
    {
        self.builder.append_value(value);
    }

    /// Relies on arrow's `GenericByteViewBuilder::append_null`: appends one
    /// null element.
    #[verifier::external_body]
    pub(crate) fn append_null(&mut self)
        requires
            store_seq(*old(self)).len() < 0xFFFF_FFFEusize,
        ensures
            store_seq(*final(self)) == store_seq(*old(self)).push(None::<Seq<u8>>),
    {
        self.builder.append_null();
    }

    /// Relies on arrow's `GenericByteViewBuilder::get_value`: the bytes of the
    /// non-null element at `index`.
    #[verifier::external_body]
    pub(crate) fn get(&self, index: usize) -> (r: &[u8])
        requires
            index < store_seq(*self).len(),
            store_seq(*self)[index as int] is Some,
        ensures
            store_seq(*self)[index as int] == Some(r@),
    {
        self.builder.get_value(index)
    }

    /// Relies on arrow's `GenericByteViewBuilder::finish`: builds the
    /// binary-view array over the builder's buffers, element for element,
    /// without copying the byte content.
    #[verifier::external_body]
    pub(crate) fn finish(self) -> (a: FinishedArray)
        ensures
            array_seq(a) == store_seq(self),
    {
        let mut builder = self.builder;
        FinishedArray { inner: builder.finish() }
    }
}

impl FinishedArray {
    /// Relies on arrow's `Array::len` for `GenericByteViewArray`.
    #[verifier::external_body]
    pub fn len(&self) -> (n: usize)
        ensures
            n == array_seq(*self).len(),
    {
        arrow::array::Array::len(&self.inner)
    }

    /// Relies on arrow's `Array::is_null` for `GenericByteViewArray`.
    #[verifier::external_body]
    pub fn is_null(&self, index: usize) -> (r: bool)
        requires
            index < array_seq(*self).len(),
        ensures
            r == (array_seq(*self)[index as int] is None),
    {
        arrow::array::Array::is_null(&self.inner, index)
    }

    /// Relies on arrow's `GenericByteViewArray::value`: the bytes of the
    /// non-null element at `index`.
    #[verifier::external_body]
    pub fn value(&self, index: usize) -> (r: &[u8])
        requires
            index < array_seq(*self).len(),
            array_seq(*self)[index as int] is Some,
        ensures
            array_seq(*self)[index as int] == Some(r@),
    {
        self.inner.value(index)
    }
}

} // verus!
