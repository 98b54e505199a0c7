//! A per-request transaction buffer with two phases: while the response is
//! empty the buffer accumulates discrete argument records (argument mode);
//! once any response bytes have been appended it streams them back out,
//! front first. The mode is derived from emptiness of the response, not
//! stored: a fully drained response puts the buffer back in argument mode.

use vstd::prelude::*;

verus! {

/// A transaction: an ordered sequence of argument byte-records followed by
/// a response byte stream.
#[derive(Debug)]
pub struct Trans {
    args: Vec<Vec<u8>>,
    resp: Vec<u8>,
}

impl Trans {
    /// The buffered argument records, oldest first.
    pub closed spec fn args(&self) -> Seq<Seq<u8>> {
        self.args.deep_view()
    }

    /// The bytes of the response that have not been read yet, front first.
    pub closed spec fn resp(&self) -> Seq<u8> {
        self.resp@
    }

    /// Argument mode is derived: it holds exactly while the response is empty.
    pub open spec fn in_arg_mode(&self) -> bool {
        self.resp().len() == 0
    }

    /// A fresh transaction holds no records and no response, so it starts
    /// in argument mode.
    pub fn new() -> (t: Trans)
        ensures
            t.args() == Seq::<Seq<u8>>::empty(),
            t.resp() == Seq::<u8>::empty(),
            t.in_arg_mode(),
    {
        Trans { args: Vec::new(), resp: Vec::new() }
    }

    /// True exactly while the response sequence is empty.
    pub fn arg_mode(&self) -> (r: bool)
        ensures
            r == self.in_arg_mode(),
    {
        self.resp.len() == 0
    }

    /// Appends one argument record; the response is untouched.
    pub fn add_arg(&mut self, dat: Vec<u8>)
        ensures
            final(self).args() == old(self).args().push(dat@),
            final(self).resp() == old(self).resp(),
    {
        self.args.push(dat);
        proof {
            assert(self.args@ == old(self).args@.push(dat));
            assert(self.args.deep_view() =~~= old(self).args.deep_view().push(dat@));
        }
    }

    /// Takes all the argument records if there are at least `n`, returning
    /// the first `n`; the records beyond `n` are discarded, not kept for a
    /// later call. With fewer than `n` records buffered it returns `None`
    /// and changes nothing.
    pub fn take_args(&mut self, n: usize) -> (r: Option<Vec<Vec<u8>>>)
        ensures
            r is Some <==> old(self).args().len() >= n,
            r is None ==> *final(self) == *old(self),
            r is Some ==> r->Some_0.deep_view() == old(self).args().subrange(0, n as int),
            r is Some ==> final(self).args().len() == 0,
            final(self).resp() == old(self).resp(),
    {
        if self.args.len() >= n {
            let mut taken: Vec<Vec<u8>> = Vec::new();
            core::mem::swap(&mut self.args, &mut taken);
            taken.truncate(n);
            proof {
                assert(taken.deep_view() =~~= old(self).args.deep_view().subrange(0, n as int));
                assert(self.args.deep_view() =~~= Seq::<Seq<u8>>::empty());
            }
            Some(taken)
        } else {
            None
        }
    }

    /// Appends bytes to the response (append, not replace: repeated calls
    /// concatenate). The first call that appends at least one byte ends
    /// argument mode; the records already buffered are untouched.
    pub fn set_resp(&mut self, dat: Vec<u8>)
        ensures
            final(self).resp() == old(self).resp() + dat@,
            final(self).args() == old(self).args(),
            dat@.len() > 0 ==> !final(self).in_arg_mode(),
            old(self).in_arg_mode() && dat@.len() == 0 ==> final(self).in_arg_mode(),
    {
        let mut dat = dat;
        self.resp.append(&mut dat);
    }

    /// Removes and returns up to `n` bytes from the front of the response
    /// (fewer if fewer remain, empty if none remain). Draining the response
    /// back to empty puts the buffer back in argument mode.
    pub fn read_resp(&mut self, n: usize) -> (r: Vec<u8>)
        ensures
            ({
                let m = if n <= old(self).resp().len() { n as int } else { old(self).resp().len() as int };
                &&& r@ == old(self).resp().subrange(0, m)
                &&& final(self).resp() == old(self).resp().subrange(m, old(self).resp().len() as int)
            }),
            final(self).args() == old(self).args(),
            n >= old(self).resp().len() ==> final(self).in_arg_mode(),
    {
        let m = if n <= self.resp.len() { n } else { self.resp.len() };
        let mut tail = self.resp.split_off(m);
        core::mem::swap(&mut self.resp, &mut tail);
        tail
    }
}

} // verus!
