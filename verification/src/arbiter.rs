//! The memory arbiter: a checked handle table of staging buffers.
//!
//! The host stages input and output bytes in guest-owned buffers. Instead of
//! raw pointers, the arbiter hands out numeric handles into a slot table,
//! rejects a release of an unknown handle (including a second release) or of
//! the wrong size, and reuses the lowest freed slot first, so repeated
//! acquire/release cycles cannot grow the table.

use vstd::prelude::*;

verus! {

/// Why a buffer operation was rejected; the arbiter is left unchanged.
#[derive(Clone, Copy, Debug, PartialEq, Eq)]
pub enum ReleaseError {
    /// The handle does not name a live buffer: never acquired, or already
    /// released.
    UnknownHandle,
    /// The given size differs from the size the buffer was acquired with.
    SizeMismatch,
}

/// A fresh buffer's contents: `size` zeroed bytes.
pub open spec fn zero_bytes(size: nat) -> Seq<u8> {
    Seq::new(size, |i: int| 0u8)
}

/// The lowest free slot: the index the next acquisition fills, the table's
/// length if every slot is live.
pub open spec fn first_free(s: Seq<Option<Seq<u8>>>) -> int
    decreases s.len(),
{
    if s.len() == 0 {
        0
    } else if s[0] is None {
        0
    } else {
        1 + first_free(s.drop_first())
    }
}

/// The table after an acquisition of `size` bytes: the lowest free slot is
/// filled, or a new slot is appended when every slot is live.
pub open spec fn acquire_state(s: Seq<Option<Seq<u8>>>, size: nat) -> Seq<Option<Seq<u8>>> {
    let h = first_free(s);
    if h < s.len() {
        s.update(h, Some(zero_bytes(size)))
    } else {
        s.push(Some(zero_bytes(size)))
    }
}

/// Drops free slots from the table's tail, the normal form the arbiter keeps
/// its table in.
pub open spec fn strip_free_tail(s: Seq<Option<Seq<u8>>>) -> Seq<Option<Seq<u8>>>
    decreases s.len(),
{
    if s.len() > 0 && s.last() is None {
        strip_free_tail(s.drop_last())
    } else {
        s
    }
}

/// A release of handle `h` with the given size succeeds: the handle names a
/// live buffer of exactly that size.
pub open spec fn release_ok(s: Seq<Option<Seq<u8>>>, h: int, size: nat) -> bool {
    &&& 0 <= h < s.len()
    &&& s[h] matches Some(b) && b.len() == size
}

/// The table after a successful release of handle `h`: the slot is freed and
/// the tail is normalized.
pub open spec fn release_state(s: Seq<Option<Seq<u8>>>, h: int) -> Seq<Option<Seq<u8>>> {
    strip_free_tail(s.update(h, None))
}

/// The arbiter's invariant on its table: no free slot at the tail.
pub open spec fn arbiter_wf(s: Seq<Option<Seq<u8>>>) -> bool {
    s.len() > 0 ==> s.last() is Some
}

/// Allocates and releases the staging buffers that callers use to pass bytes
/// across the boundary. Viewed as its slot table: each slot is a live buffer's
/// contents or free.
pub struct Arbiter {
    slots: Vec<Option<Vec<u8>>>,
}

impl View for Arbiter {
    type V = Seq<Option<Seq<u8>>>;

    closed spec fn view(&self) -> Seq<Option<Seq<u8>>> {
        self.slots.deep_view()
    }
}

impl Arbiter {
    /// An arbiter with no outstanding buffers.
    pub fn new() -> (a: Arbiter)
        ensures
            a@ == Seq::<Option<Seq<u8>>>::empty(),
            arbiter_wf(a@),
    {
        let a = Arbiter { slots: Vec::new() };
        proof {
            assert(a@ =~~= Seq::<Option<Seq<u8>>>::empty());
        }
        a
    }

    /// Acquires a buffer of exactly `size` bytes, zero-filled, and returns its
    /// handle: the lowest free slot, so a table of live buffers never grows
    /// past the most that were ever outstanding at once.
    pub fn allocate(&mut self, size: usize) -> (h: usize)
        requires
            arbiter_wf(old(self)@),
        ensures
            arbiter_wf(final(self)@),
            h as int == first_free(old(self)@),
            final(self)@ == acquire_state(old(self)@, size as nat),
            h < final(self)@.len(),
            final(self)@[h as int] == Some(zero_bytes(size as nat)),
    {
        let ghost s = self@;
        let mut buf: Vec<u8> = Vec::new();
        let mut j: usize = 0;
        while j < size
            invariant
                j <= size,
                buf@ =~= zero_bytes(j as nat),
            decreases size - j,
        {
            buf.push(0u8);
            j = j + 1;
        }
        proof {
            assert(buf@ =~= zero_bytes(size as nat));
        }
        let n = self.slots.len();
        let mut h: usize = 0;
        while h < n && !self.slots[h].is_none()
            invariant
                n == s.len(),
                self@ == s,
                self.slots@.len() == s.len(),
                h <= n,
                forall|k: int| 0 <= k < h ==> s[k] is Some,
            decreases n - h,
        {
            proof {
                assert(s[h as int] == self.slots@[h as int].deep_view());
            }
            h = h + 1;
        }
        proof {
            assert(h < n ==> s[h as int] is None) by {
                if h < n {
                    assert(s[h as int] == self.slots@[h as int].deep_view());
                }
            }
            lemma_first_free_at(s, h as int);
        }
        if h < n {
            self.slots[h] = Some(buf);
            proof {
                assert(self@ =~~= s.update(h as int, Some(zero_bytes(size as nat))));
            }
        } else {
            self.slots.push(Some(buf));
            proof {
                assert(self@ =~~= s.push(Some(zero_bytes(size as nat))));
            }
        }
        h
    }

    /// Releases the buffer behind handle `h`, which must be given with its
    /// original acquisition size. An unknown or already released handle, or a
    /// mismatched size, is rejected and changes nothing.
    pub fn deallocate(&mut self, h: usize, size: usize) -> (r: Result<(), ReleaseError>)
        requires
            arbiter_wf(old(self)@),
        ensures
            arbiter_wf(final(self)@),
            r is Ok <==> release_ok(old(self)@, h as int, size as nat),
            r is Ok ==> final(self)@ == release_state(old(self)@, h as int),
            r is Err ==> final(self)@ == old(self)@,
            r matches Err(ReleaseError::UnknownHandle) <==> !(h < old(self)@.len() && old(
                self,
            )@[h as int] is Some),
            r matches Err(ReleaseError::SizeMismatch) ==> (h < old(self)@.len() && (old(
                self,
            )@[h as int] matches Some(b) && b.len() != size)),
    {
        let ghost s = self@;
        if h >= self.slots.len() {
            return Err(ReleaseError::UnknownHandle);
        }
        proof {
            assert(s[h as int] == self.slots@[h as int].deep_view());
        }
        let live = match &self.slots[h] {
            Option::None => false,
            Option::Some(b) => b.len() == size,
        };
        let sized = match &self.slots[h] {
            Option::None => true,
            Option::Some(b) => b.len() == size,
        };
        if !sized {
            return Err(ReleaseError::SizeMismatch);
        }
        if !live {
            return Err(ReleaseError::UnknownHandle);
        }
        self.slots[h] = None;
        proof {
            assert(self@ =~~= s.update(h as int, None));
        }
        let ghost freed = s.update(h as int, None);
        loop
            invariant_except_break
                strip_free_tail(self@) == strip_free_tail(freed),
            ensures
                strip_free_tail(self@) == strip_free_tail(freed),
                arbiter_wf(self@),
            decreases self.slots@.len(),
        {
            let n2 = self.slots.len();
            if n2 == 0 {
                break ;
            }
            proof {
                assert(self@[n2 - 1] == self.slots@[n2 - 1].deep_view());
            }
            if !self.slots[n2 - 1].is_none() {
                break ;
            }
            let ghost before = self@;
            self.slots.pop();
            proof {
                assert(self@ =~~= before.drop_last());
                assert(before.last() is None);
            }
        }
        proof {
            assert(strip_free_tail(self@) == self@);
        }
        Ok(())
    }

    /// The live buffer behind a handle, if any: what the host reads back after
    /// a search, or inspects before staging.
    pub fn buffer(&self, h: usize) -> (r: Option<&Vec<u8>>)
        ensures
            r matches Some(b) ==> h < self@.len() && self@[h as int] == Some(b@),
            r is None ==> !(h < self@.len() && self@[h as int] is Some),
    {
        if h >= self.slots.len() {
            return None;
        }
        proof {
            assert(self@[h as int] == self.slots@[h as int].deep_view());
        }
        match &self.slots[h] {
            Option::None => None,
            Option::Some(b) => {
                proof {
                    assert(self@[h as int] == Some(b.deep_view()));
                    assert(b.deep_view() =~= b@);
                }
                Some(b)
            },
        }
    }

    /// Overwrites the live buffer behind handle `h` with bytes of the same
    /// length: how the host stages data without disturbing the buffer's
    /// acquisition size. A dead handle or a length change is rejected and
    /// changes nothing.
    pub fn store(&mut self, h: usize, data: Vec<u8>) -> (r: Result<(), ReleaseError>)
        requires
            arbiter_wf(old(self)@),
        ensures
            arbiter_wf(final(self)@),
            r is Ok <==> release_ok(old(self)@, h as int, data@.len()),
            r is Ok ==> final(self)@ == old(self)@.update(h as int, Some(data@)),
            r is Err ==> final(self)@ == old(self)@,
            r matches Err(ReleaseError::UnknownHandle) <==> !(h < old(self)@.len() && old(
                self,
            )@[h as int] is Some),
            r matches Err(ReleaseError::SizeMismatch) ==> (h < old(self)@.len() && (old(
                self,
            )@[h as int] matches Some(b) && b.len() != data@.len())),
    {
        let ghost s = self@;
        if h >= self.slots.len() {
            return Err(ReleaseError::UnknownHandle);
        }
        proof {
            assert(s[h as int] == self.slots@[h as int].deep_view());
        }
        let live = match &self.slots[h] {
            Option::None => false,
            Option::Some(_) => true,
        };
        if !live {
            return Err(ReleaseError::UnknownHandle);
        }
        let ok = match &self.slots[h] {
            Option::None => false,
            Option::Some(b) => b.len() == data.len(),
        };
        if !ok {
            return Err(ReleaseError::SizeMismatch);
        }
        proof {
            assert(s.len() > 0 && s.last() is Some);
        }
        let ghost dv = data@;
        self.slots[h] = Some(data);
        proof {
            assert(self@ =~~= s.update(h as int, Some(dv)));
            assert(self@.last() is Some);
        }
        Ok(())
    }
}

/// `first_free` is exactly the lowest free index: if every slot below `i` is
/// live and `i` is free or one past the end, the next acquisition lands on `i`.
pub proof fn lemma_first_free_at(s: Seq<Option<Seq<u8>>>, i: int)
    requires
        0 <= i <= s.len(),
        forall|k: int| 0 <= k < i ==> s[k] is Some,
        i == s.len() || s[i] is None,
    ensures
        first_free(s) == i,
    decreases s.len(),
{
    if s.len() == 0 {
    } else if i == 0 {
    } else {
        assert(s[0] is Some);
        let t = s.drop_first();
        assert forall|k: int| 0 <= k < i - 1 implies t[k] is Some by {
            assert(t[k] == s[k + 1]);
        }
        assert(i - 1 == t.len() || t[i - 1] is None);
        lemma_first_free_at(t, i - 1);
    }
}

/// Releasing a buffer right after acquiring it, with the handle and size the
/// acquisition gave, always succeeds and returns the arbiter to exactly its
/// prior table, so repeated acquire/release cycles neither leak slots nor
/// grow the table, and any later acquisition is satisfied as before.
pub proof fn lemma_release_after_acquire(s: Seq<Option<Seq<u8>>>, size: nat)
    requires
        arbiter_wf(s),
    ensures
        release_ok(acquire_state(s, size), first_free(s), size),
        release_state(acquire_state(s, size), first_free(s)) == s,
{
    let h = first_free(s);
    lemma_first_free_props(s);
    let a = acquire_state(s, size);
    if h < s.len() {
        assert(s[h] is None);
        assert(a.update(h, None) =~~= s);
        assert(strip_free_tail(s) == s);
    } else {
        assert(a == s.push(Some(zero_bytes(size))));
        assert(a.update(h, None) =~~= s.push(None));
        assert(s.push(None).drop_last() =~~= s);
        assert(strip_free_tail(s.push(None)) == strip_free_tail(s));
        assert(strip_free_tail(s) == s);
    }
}

/// Basic bounds of `first_free`: it never passes the table's end and always
/// names a free slot when it lands inside the table.
pub proof fn lemma_first_free_props(s: Seq<Option<Seq<u8>>>)
    ensures
        0 <= first_free(s) <= s.len(),
        first_free(s) < s.len() ==> s[first_free(s)] is None,
    decreases s.len(),
{
    if s.len() == 0 {
    } else if s[0] is None {
    } else {
        lemma_first_free_props(s.drop_first());
    }
}

} // verus!
