//! One group's ordered list of values, kept as a buffer of frames.
use vstd::prelude::*;

use crate::frame::{decode_frames, lemma_parse_concat, lemma_parse_frame, parse_frames, push_frame, views};

verus! {

/// Relies on `Vec::capacity`: the buffer holds at least its length, and std never
/// allocates more than `isize::MAX` bytes.
#[verifier::external_body]
pub(crate) fn byte_capacity(v: &Vec<u8>) -> (r: usize)
    ensures
        v.len() <= r <= isize::MAX,
{
    v.capacity()
}

/// Relies on `Vec::capacity`: the vector holds at least its length, and std never
/// allocates more than `isize::MAX` bytes.
#[verifier::external_body]
pub(crate) fn vec_capacity<T>(v: &Vec<T>) -> (r: usize)
    ensures
        v.len() <= r,
        r * vstd::layout::size_of::<T>() <= isize::MAX,
{
    v.capacity()
}

/// The accumulated values of one `collect_list` group, in insertion order.
pub struct AccList {
    raw: Vec<u8>,
    cap: usize,
}

impl AccList {
    /// The buffer is a sequence of frames and `cap` is the buffer's capacity.
    pub closed spec fn wf(&self) -> bool {
        &&& parse_frames(self.raw@) is Some
        &&& self.raw.len() <= self.cap <= isize::MAX
    }

    /// The values held, in insertion order.
    pub closed spec fn items(&self) -> Seq<Seq<u8>> {
        parse_frames(self.raw@).unwrap()
    }

    /// The framed bytes.
    pub closed spec fn raw_bytes(&self) -> Seq<u8> {
        self.raw@
    }

    /// The memory held: the capacity of the buffer.
    pub closed spec fn spec_mem_size(&self) -> nat {
        self.cap as nat
    }

    pub fn new() -> (r: Self)
        ensures
            r.wf(),
            r.items() == Seq::<Seq<u8>>::empty(),
            r.raw_bytes() == Seq::<u8>::empty(),
            r.spec_mem_size() == 0,
    {
        // `Vec::new` does not allocate: the buffer's capacity is 0
        AccList { raw: Vec::new(), cap: 0 }
    }

    /// Takes a buffer of frames as the list's contents.
    pub fn from_raw(raw: Vec<u8>) -> (r: Self)
        requires
            parse_frames(raw@) is Some,
        ensures
            r.wf(),
            r.raw_bytes() == raw@,
            r.items() == parse_frames(raw@).unwrap(),
    {
        let cap = byte_capacity(&raw);
        AccList { raw, cap }
    }

    pub fn mem_size(&self) -> (r: usize)
        ensures
            r == self.spec_mem_size(),
    {
        self.cap
    }

    /// The number of framed bytes.
    pub fn raw_len(&self) -> (r: usize)
        ensures
            r == self.raw_bytes().len(),
    {
        self.raw.len()
    }

    /// The framed bytes.
    pub fn raw(&self) -> (r: &Vec<u8>)
        ensures
            r@ == self.raw_bytes(),
    {
        &self.raw
    }

    pub proof fn lemma_raw(&self)
        requires
            self.wf(),
        ensures
            parse_frames(self.raw_bytes()) == Some(self.items()),
            self.spec_mem_size() <= isize::MAX,
            self.raw_bytes().len() <= self.spec_mem_size(),
    {
    }

    /// Appends one value at the end.
    pub fn append(&mut self, value: &Vec<u8>)
        requires
            old(self).wf(),
            value.len() <= u32::MAX,
        ensures
            final(self).wf(),
            final(self).items() == old(self).items().push(value@),
            final(self).raw_bytes() == old(self).raw_bytes() + crate::frame::frame(value@),
    {
        let ghost a = self.raw@;
        push_frame(&mut self.raw, value);
        proof {
            lemma_parse_frame(value@);
            lemma_parse_concat(a, crate::frame::frame(value@));
            assert(parse_frames(a).unwrap() + seq![value@] =~= parse_frames(a).unwrap().push(value@));
        }
        self.cap = byte_capacity(&self.raw);
    }

    /// Moves all of `other`'s values to the end of this list.
    pub fn merge(&mut self, other: &mut Self)
        requires
            old(self).wf(),
            old(other).wf(),
        ensures
            final(self).wf(),
            final(other).wf(),
            final(self).items() == old(self).items() + old(other).items(),
            final(other).items() == Seq::<Seq<u8>>::empty(),
    {
        let ghost a = self.raw@;
        let ghost b = other.raw@;
        let mut taken: Vec<u8> = Vec::new();
        std::mem::swap(&mut taken, &mut other.raw);
        other.cap = byte_capacity(&other.raw);
        let mut i: usize = 0;
        while i < taken.len()
            invariant
                i <= taken.len(),
                taken@ == b,
                self.raw@ == a + b.subrange(0, i as int),
            decreases taken.len() - i,
        {
            self.raw.push(taken[i]);
            assert(b.subrange(0, i + 1) =~= b.subrange(0, i as int).push(b[i as int]));
            i += 1;
        }
        proof {
            assert(b.subrange(0, b.len() as int) =~= b);
            lemma_parse_concat(a, b);
            assert(parse_frames(other.raw@) == Some(Seq::<Seq<u8>>::empty()));
        }
        self.cap = byte_capacity(&self.raw);
    }

    /// The values held, in insertion order.
    pub fn into_values(self) -> (r: Vec<Vec<u8>>)
        requires
            self.wf(),
        ensures
            views(r@) == self.items(),
    {
        match decode_frames(&self.raw) {
            Some(v) => v,
            None => Vec::new(),
        }
    }
}

} // verus!
