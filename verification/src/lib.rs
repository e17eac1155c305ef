//! A dynamically typed value model together with two codecs for it: a
//! textual JSON codec and a binary MessagePack codec.
pub mod bignum;
pub mod dynamic;
pub mod ieee;
pub mod json;
pub mod laws;
pub mod msgpack;

use vstd::prelude::*;

verus! {

/// True for the four whitespace bytes that JSON input may carry between
/// tokens: space, tab, carriage return and line feed.
pub open spec fn is_white(b: u8) -> bool {
    b == 0x20 || b == 0x09 || b == 0x0d || b == 0x0a
}

/// Index of the first non-whitespace byte of `buf`, or an error when the
/// buffer holds nothing but whitespace.
pub fn skip_white(buf: &[u8]) -> (r: Result<usize, ()>)
    ensures
        match r {
            Ok(pos) => pos < buf@.len() && !is_white(buf@[pos as int]) && (forall|i: int|
                0 <= i < pos ==> is_white(buf@[i])),
            Err(()) => forall|i: int| 0 <= i < buf@.len() ==> is_white(buf@[i]),
        },
{
    let mut pos: usize = 0;
    while pos < buf.len() && (buf[pos] == 0x20 || buf[pos] == 0x0d || buf[pos] == 0x09
        || buf[pos] == 0x0a)
        invariant
            pos <= buf@.len(),
            forall|i: int| 0 <= i < pos ==> is_white(buf@[i]),
        decreases buf@.len() - pos,
    {
        pos += 1;
    }
    if pos < buf.len() {
        Ok(pos)
    } else {
        Err(())
    }
}

/// A value handed out once: the first call to `take` yields `first`, every
/// later call yields `other`. The serializers use it for the separator that
/// stands between elements but not before the first.
pub struct ZOnce {
    pub first: Option<&'static str>,
    pub other: &'static str,
}

impl ZOnce {
    pub fn new(first: &'static str, other: &'static str) -> (r: Self)
        ensures
            r.first == Option::Some(first),
            r.other == other,
    {
        ZOnce { first: Some(first), other }
    }

    /// `first` on the first call, `other` from then on.
    pub fn take(&mut self) -> (r: &'static str)
        ensures
            match old(self).first {
                Option::Some(s) => r == s && final(self).first is None && final(self).other == old(
                    self,
                ).other,
                Option::None => r == old(self).other && *final(self) == *old(self),
            },
    {
        let f = self.first.take();
        match f {
            Some(s) => s,
            None => self.other,
        }
    }
}

} // verus!
