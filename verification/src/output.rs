//! What is waiting to be committed to a trace file.

use vstd::prelude::*;

verus! {

/// Bytes that go to a file together or not at all. Several processes write to one
/// file, so that whole packets are collected here and committed under a lock.
pub struct Outbox {
    buf: Vec<u8>,
}

impl View for Outbox {
    type V = Seq<u8>;

    closed spec fn view(&self) -> Seq<u8> {
        self.buf@
    }
}

impl Outbox {
    pub fn new() -> (b: Self)
        ensures
            b@ == Seq::<u8>::empty(),
    {
        Outbox { buf: Vec::new() }
    }

    /// Adds to what is waiting. Nothing reaches the file yet.
    pub fn write(&mut self, bytes: &[u8]) -> (n: usize)
        ensures
            final(self)@ == old(self)@ + bytes@,
            n == bytes@.len(),
    {
        crate::text::push_bytes(&mut self.buf, bytes);
        bytes.len()
    }

    /// All that is waiting, to be committed in one go, or nothing where there is no
    /// need to. Nothing is waiting after that, whether the commit succeeds or not.
    pub fn take_commit(&mut self) -> (bytes: Option<Vec<u8>>)
        ensures
            final(self)@ == Seq::<u8>::empty(),
            match bytes {
                Some(b) => b@ == old(self)@ && b@.len() > 0,
                None => old(self)@.len() == 0,
            },
    {
        if self.buf.len() == 0 {
            assert(self.buf@ =~= Seq::empty());
            return None;
        }
        let mut bytes: Vec<u8> = Vec::new();
        core::mem::swap(&mut self.buf, &mut bytes);
        Some(bytes)
    }
}

/// What is written is what is committed: all of it, in order, and once.
pub proof fn what_is_written_is_committed_once(
    b: &mut Outbox,
    bytes: &[u8],
    n: usize,
    c: &mut Outbox,
    committed: Option<Vec<u8>>,
)
    requires
        call_ensures(Outbox::write, (b, bytes), n),
        call_ensures(Outbox::take_commit, (c,), committed),
        *final(b) == *old(c),
    ensures
        n == bytes@.len(),
        committed is None <==> old(b)@.len() == 0 && bytes@.len() == 0,
        committed matches Some(all) ==> all@.take(old(b)@.len() as int) == old(b)@
            && all@.skip(old(b)@.len() as int) == bytes@,
        final(c)@.len() == 0,
{
    if let Some(all) = committed {
        assert(all@.take(old(b)@.len() as int) =~= old(b)@);
        assert(all@.skip(old(b)@.len() as int) =~= bytes@);
    }
}

} // verus!
