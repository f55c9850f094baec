//! A windowed, positioned, reference-counted byte buffer: cheap sub-slicing
//! that preserves the original buffer's absolute position for alignment
//! arithmetic.

use std::rc::Rc;

use vstd::prelude::*;

verus! {

/// Relies on `Rc::clone`: the returned handle refers to the same buffer.
#[verifier::external_body]
fn rc_clone(buf: &Rc<Vec<u8>>) -> (r: Rc<Vec<u8>>)
    ensures
        r == *buf,
{
    Rc::clone(buf)
}

/// A view into a shared byte buffer: the window `[start, end)`; `start`
/// doubles as the absolute position used for alignment.
pub struct SharedData {
    buf: Rc<Vec<u8>>,
    start: usize,
    end: usize,
}

impl View for SharedData {
    type V = Seq<u8>;

    closed spec fn view(&self) -> Seq<u8> {
        self.buf@.subrange(self.start as int, self.end as int)
    }
}

impl SharedData {
    /// The window lies inside the buffer.
    pub closed spec fn wf(&self) -> bool {
        self.start <= self.end && self.end <= self.buf@.len()
    }

    /// The absolute position of the window's first byte.
    pub closed spec fn spec_position(&self) -> int {
        self.start as int
    }

    /// The window is never longer than a machine word can address.
    pub proof fn lemma_len_bound(&self)
        requires
            self.wf(),
        ensures
            self@.len() <= usize::MAX,
            self.spec_position() >= 0,
            self.spec_position() + self@.len() <= usize::MAX,
    {
    }

    /// Wraps a whole buffer, positioned at zero.
    pub fn new(data: Vec<u8>) -> (r: SharedData)
        ensures
            r.wf(),
            r@ == data@,
            r.spec_position() == 0,
    {
        let end = data.len();
        let r = SharedData { buf: Rc::new(data), start: 0, end };
        proof {
            assert(r@ =~= r.buf@);
        }
        r
    }

    /// The window's length.
    pub fn len(&self) -> (r: usize)
        requires
            self.wf(),
        ensures
            r == self@.len(),
    {
        self.end - self.start
    }

    /// The window's absolute position.
    pub fn position(&self) -> (r: usize)
        ensures
            r == self.spec_position(),
    {
        self.start
    }

    /// The first `n` bytes of the window, at the same position.
    pub fn head(&self, n: usize) -> (r: SharedData)
        requires
            self.wf(),
            n <= self@.len(),
        ensures
            r.wf(),
            r@ == self@.subrange(0, n as int),
            r.spec_position() == self.spec_position(),
    {
        let r = SharedData { buf: rc_clone(&self.buf), start: self.start, end: self.start + n };
        proof {
            assert(r@ =~= self@.subrange(0, n as int));
        }
        r
    }

    /// The window with its first `n` bytes dropped, `n` further along.
    pub fn tail(&self, n: usize) -> (r: SharedData)
        requires
            self.wf(),
            n <= self@.len(),
        ensures
            r.wf(),
            r@ == self@.skip(n as int),
            r.spec_position() == self.spec_position() + n,
    {
        let r = SharedData { buf: rc_clone(&self.buf), start: self.start + n, end: self.end };
        proof {
            assert(r@ =~= self@.skip(n as int));
        }
        r
    }

    /// One byte of the window.
    pub fn get(&self, i: usize) -> (r: u8)
        requires
            self.wf(),
            i < self@.len(),
        ensures
            r == self@[i as int],
    {
        self.buf[self.start + i]
    }

    /// A copy of the window's bytes in `[from, to)`.
    pub fn range_vec(&self, from: usize, to: usize) -> (r: Vec<u8>)
        requires
            self.wf(),
            from <= to <= self@.len(),
        ensures
            r@ == self@.subrange(from as int, to as int),
    {
        let mut out: Vec<u8> = Vec::new();
        let mut i: usize = from;
        loop
            invariant
                from <= i <= to,
                to <= self@.len(),
                self.wf(),
                out@ =~= self@.subrange(from as int, i as int),
            decreases to - i,
        {
            if i >= to {
                proof {
                    assert(out@ =~= self@.subrange(from as int, to as int));
                }
                return out;
            }
            out.push(self.get(i));
            i = i + 1;
        }
    }
}

} // verus!
