//! A fixed-capacity circular FIFO byte store.
//!
//! Pushing a byte when the buffer is full fails explicitly — nothing is
//! overwritten or dropped silently — and a bulk read removes the
//! requested number of bytes from the front, preserving the FIFO order of
//! the remaining bytes.  The storage is allocated once at construction;
//! push and per-byte removal are constant-time.

use vstd::prelude::*;

verus! {

/// The position in the backing store of the element `i` places after
/// `head`, for a store of `cap` slots: `(head + i) mod cap`, written
/// without modulo because `head` and `i` are both below `cap`.
pub open spec fn wrap_index(head: int, i: int, cap: int) -> int {
    if head + i < cap {
        head + i
    } else {
        head + i - cap
    }
}

/// A fixed-capacity circular FIFO of bytes.
pub struct RingBuffer {
    data: Vec<u8>,
    head: usize,
    len: usize,
}

impl RingBuffer {
    /// The fixed capacity: how many bytes the buffer can hold at once.
    pub closed spec fn spec_capacity(&self) -> int {
        self.data@.len() as int
    }

    /// Well-formed: the head points into the backing store and the length
    /// never exceeds the capacity.
    pub closed spec fn wf(&self) -> bool {
        &&& self.data@.len() >= 1
        &&& self.head < self.data@.len()
        &&& self.len <= self.data@.len()
    }

    /// The stored bytes, oldest first.
    pub closed spec fn contents(&self) -> Seq<u8> {
        Seq::new(
            self.len as nat,
            |i: int| self.data@[wrap_index(self.head as int, i, self.data@.len() as int)],
        )
    }

    /// Well-formedness bounds the contents by the capacity, which in
    /// turn fits the machine word.
    pub proof fn lemma_wf_facts(&self)
        requires
            self.wf(),
        ensures
            self.contents().len() <= self.spec_capacity(),
            self.spec_capacity() <= usize::MAX,
    {
        vstd::std_specs::vec::axiom_spec_len(&self.data);
    }

    /// Creates an empty buffer that can hold `capacity` bytes.
    pub fn new(capacity: usize) -> (r: Self)
        requires
            capacity >= 1,
        ensures
            r.wf(),
            r.spec_capacity() == capacity,
            r.contents() == Seq::<u8>::empty(),
    {
        let mut data: Vec<u8> = Vec::new();
        let mut i: usize = 0;
        while i < capacity
            invariant
                i <= capacity,
                data@.len() == i as int,
            decreases capacity - i,
        {
            data.push(0);
            i = i + 1;
        }
        let r = RingBuffer { data, head: 0, len: 0 };
        proof {
            assert(r.contents() =~= Seq::<u8>::empty());
        }
        r
    }

    /// How many bytes are stored.
    pub fn len(&self) -> (r: usize)
        requires
            self.wf(),
        ensures
            r == self.contents().len(),
    {
        self.len
    }

    /// The fixed capacity.
    pub fn capacity(&self) -> (r: usize)
        requires
            self.wf(),
        ensures
            r == self.spec_capacity(),
    {
        self.data.len()
    }

    /// Whether no bytes are stored.
    pub fn is_empty(&self) -> (r: bool)
        requires
            self.wf(),
        ensures
            r == (self.contents().len() == 0),
    {
        self.len == 0
    }

    /// The byte `i` places from the front, without removing it.
    pub fn get(&self, i: usize) -> (r: u8)
        requires
            self.wf(),
            i < self.contents().len(),
        ensures
            r == self.contents()[i as int],
    {
        let cap = self.data.len();
        let idx = if i < cap - self.head {
            self.head + i
        } else {
            i - (cap - self.head)
        };
        self.data[idx]
    }

    /// Appends a byte at the back, unless the buffer is already full:
    /// then nothing changes and the push reports failure.
    pub fn try_push(&mut self, byte: u8) -> (ok: bool)
        requires
            old(self).wf(),
        ensures
            final(self).wf(),
            final(self).spec_capacity() == old(self).spec_capacity(),
            ok == (old(self).contents().len() < old(self).spec_capacity()),
            ok ==> final(self).contents() == old(self).contents().push(byte),
            !ok ==> final(self).contents() == old(self).contents(),
    {
        let cap = self.data.len();
        if self.len == cap {
            return false;
        }
        let tail = if self.len < cap - self.head {
            self.head + self.len
        } else {
            self.len - (cap - self.head)
        };
        self.data[tail] = byte;
        self.len = self.len + 1;
        proof {
            assert(self.contents() =~= old(self).contents().push(byte));
        }
        true
    }

    /// Removes the `n` oldest bytes and writes them, oldest first, into
    /// the first `n` slots of `out`; the rest of `out` is untouched.
    pub fn pop_front_into(&mut self, out: &mut Vec<u8>, n: usize)
        requires
            old(self).wf(),
            n <= old(self).contents().len(),
            n <= old(out).len(),
        ensures
            final(self).wf(),
            final(self).spec_capacity() == old(self).spec_capacity(),
            final(self).contents() == old(self).contents().skip(n as int),
            final(out)@.len() == old(out)@.len(),
            final(out)@ == old(self).contents().take(n as int) + old(out)@.skip(n as int),
    {
        let cap = self.data.len();
        let mut j: usize = 0;
        while j < n
            invariant
                self == old(self),
                self.wf(),
                n <= self.contents().len(),
                n <= old(out).len(),
                j <= n,
                out@.len() == old(out)@.len(),
                out@ == self.contents().take(j as int) + old(out)@.skip(j as int),
            decreases n - j,
        {
            let b = self.get(j);
            out[j] = b;
            j = j + 1;
            proof {
                assert(out@ =~= self.contents().take(j as int) + old(out)@.skip(j as int));
            }
        }
        self.head = if n < cap - self.head {
            self.head + n
        } else {
            n - (cap - self.head)
        };
        self.len = self.len - n;
        proof {
            assert(self.contents() =~= old(self).contents().skip(n as int));
        }
    }

    /// The position of the first occurrence of `byte`, if it is stored.
    pub fn find_first(&self, byte: u8) -> (r: Option<usize>)
        requires
            self.wf(),
        ensures
            match r {
                Some(p) => {
                    &&& p < self.contents().len()
                    &&& self.contents()[p as int] == byte
                    &&& forall|i: int| 0 <= i < p ==> self.contents()[i] != byte
                },
                None => forall|i: int|
                    0 <= i < self.contents().len() ==> self.contents()[i] != byte,
            },
    {
        let mut j: usize = 0;
        while j < self.len
            invariant
                self.wf(),
                j <= self.contents().len(),
                forall|i: int| 0 <= i < j ==> self.contents()[i] != byte,
            decreases self.len - j,
        {
            if self.get(j) == byte {
                return Some(j);
            }
            j = j + 1;
        }
        None
    }
}

} // verus!
