//! The structural index of one record.
use vstd::prelude::*;
use super::Bitmap;
use super::builder::Inner;

verus! {

/// The structural index of a record: its character bitmaps and its leveled colon and
/// comma bitmaps.
pub struct StructuralIndex<'a, 's> {
    pub(crate) record: &'s str,
    pub(crate) inner: &'a Inner,
}

impl<'a, 's> StructuralIndex<'a, 's> {
    /// The index of `record` held by `inner`.
    pub(crate) fn new(record: &'s str, inner: &'a Inner) -> (r: Self)
        ensures
            r.spec_record() == record,
            r.spec_bitmaps() == inner.bitmaps@,
            r.spec_b_colon() == inner.b_colon@.map_values(|v: Vec<u64>| v@),
            r.spec_b_comma() == inner.b_comma@.map_values(|v: Vec<u64>| v@),
    {
        StructuralIndex { record, inner }
    }

    /// The record that was indexed.
    pub closed spec fn spec_record(&self) -> &'s str {
        self.record
    }

    /// The character bitmaps, one per word of 64 bytes of the record.
    pub closed spec fn spec_bitmaps(&self) -> Seq<Bitmap> {
        self.inner.bitmaps@
    }

    /// The colon bitmaps of each level.
    pub closed spec fn spec_b_colon(&self) -> Seq<Seq<u64>> {
        self.inner.b_colon@.map_values(|v: Vec<u64>| v@)
    }

    /// The comma bitmaps of each level.
    pub closed spec fn spec_b_comma(&self) -> Seq<Seq<u64>> {
        self.inner.b_comma@.map_values(|v: Vec<u64>| v@)
    }

    /// The record that was indexed.
    pub fn record(&self) -> (r: &'s str)
        ensures
            r == self.spec_record(),
    {
        self.record
    }

    /// The character bitmaps, one per word of 64 bytes of the record.
    pub fn bitmaps(&self) -> (r: &'a Vec<Bitmap>)
        ensures
            r@ == self.spec_bitmaps(),
    {
        &self.inner.bitmaps
    }

    /// The colon bitmaps of each level.
    pub fn b_colon(&self) -> (r: &'a Vec<Vec<u64>>)
        ensures
            r@.map_values(|v: Vec<u64>| v@) == self.spec_b_colon(),
    {
        &self.inner.b_colon
    }

    /// The comma bitmaps of each level.
    pub fn b_comma(&self) -> (r: &'a Vec<Vec<u64>>)
        ensures
            r@.map_values(|v: Vec<u64>| v@) == self.spec_b_comma(),
    {
        &self.inner.b_comma
    }
}

} // verus!
