//! Application payloads stored in documents.
//!
//! The store is generic over the values it holds.  A stored value must be
//! duplicable — the store and the caches hand out copies — and may carry an
//! internal invariant that the copies preserve.  Contracts speak about
//! values through their deep views.

use vstd::prelude::*;

verus! {

/// A value the store can hold: duplicable, with an internal invariant
/// that duplication preserves.
pub trait Payload: DeepView + Sized {
    /// The value's internal invariant.
    spec fn inv(&self) -> bool;

    /// An observably identical copy of the value.
    fn dup(&self) -> (r: Self)
        ensures
            r.deep_view() == self.deep_view(),
            r.inv() == self.inv(),
    ;
}

impl Payload for () {
    open spec fn inv(&self) -> bool {
        true
    }

    fn dup(&self) -> (r: Self) {
        *self
    }
}

impl Payload for bool {
    open spec fn inv(&self) -> bool {
        true
    }

    fn dup(&self) -> (r: Self) {
        *self
    }
}

impl Payload for char {
    open spec fn inv(&self) -> bool {
        true
    }

    fn dup(&self) -> (r: Self) {
        *self
    }
}

impl Payload for u8 {
    open spec fn inv(&self) -> bool {
        true
    }

    fn dup(&self) -> (r: Self) {
        *self
    }
}

impl Payload for u32 {
    open spec fn inv(&self) -> bool {
        true
    }

    fn dup(&self) -> (r: Self) {
        *self
    }
}

impl Payload for u64 {
    open spec fn inv(&self) -> bool {
        true
    }

    fn dup(&self) -> (r: Self) {
        *self
    }
}

impl Payload for usize {
    open spec fn inv(&self) -> bool {
        true
    }

    fn dup(&self) -> (r: Self) {
        *self
    }
}

impl Payload for i32 {
    open spec fn inv(&self) -> bool {
        true
    }

    fn dup(&self) -> (r: Self) {
        *self
    }
}

impl Payload for i64 {
    open spec fn inv(&self) -> bool {
        true
    }

    fn dup(&self) -> (r: Self) {
        *self
    }
}

impl Payload for String {
    open spec fn inv(&self) -> bool {
        true
    }

    fn dup(&self) -> (r: Self) {
        self.clone()
    }
}

impl<A: Payload, B: Payload> Payload for (A, B) {
    open spec fn inv(&self) -> bool {
        self.0.inv() && self.1.inv()
    }

    fn dup(&self) -> (r: Self) {
        (self.0.dup(), self.1.dup())
    }
}

impl<T: Payload> Payload for Option<T> {
    open spec fn inv(&self) -> bool {
        match self {
            Some(t) => t.inv(),
            None => true,
        }
    }

    fn dup(&self) -> (r: Self) {
        match self {
            Some(t) => Some(t.dup()),
            None => None,
        }
    }
}

impl<T: Payload> Payload for Vec<T> {
    open spec fn inv(&self) -> bool {
        forall|i: int| 0 <= i < self.len() ==> #[trigger] self[i].inv()
    }

    fn dup(&self) -> (r: Self) {
        let mut out: Vec<T> = Vec::new();
        let mut i: usize = 0;
        while i < self.len()
            invariant
                0 <= i <= self.len(),
                out.deep_view() =~= self.deep_view().take(i as int),
                forall|k: int| 0 <= k < i ==> #[trigger] out[k].inv() == self[k].inv(),
                forall|k: int| 0 <= k < self.len() ==> #[trigger] self[k].inv() == self[k].inv(),
            decreases self.len() - i,
        {
            let el = self[i].dup();
            let ghost gout = out;
            let ghost gel = el;
            out.push(el);
            proof {
                crate::strutil::lemma_deep_view_push(gout, out, gel);
                assert(out.deep_view() =~= self.deep_view().take(i + 1));
            }
            i += 1;
        }
        proof {
            assert(out.deep_view().len() == out.len());
            assert(out.len() == self.len());
            assert(self.deep_view().take(self.len() as int) =~= self.deep_view());
            if self.inv() {
                assert(forall|k: int| 0 <= k < out.len() ==> #[trigger] out[k].inv());
            }
            if out.inv() {
                assert forall|k: int| 0 <= k < self.len() implies #[trigger] self[k].inv() by {
                    assert(out[k].inv());
                }
            }
        }
        out
    }
}

} // verus!
