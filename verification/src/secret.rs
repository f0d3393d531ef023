//! The one type that holds a passphrase.
//!
//! Not a `String`, not a `Vec<u8>`, and that is the point. Both may reallocate as they grow,
//! and a reallocation leaves the old bytes somewhere on the heap that nothing can reach to
//! erase. A `Secret` owns no memory at all: it works inside a region that its caller mapped,
//! locked against swap and excluded from core dumps, and it never leaves that region. Every
//! byte of the region that is not part of the passphrase is zero, at all times.
//!
//! Only this module touches passphrase bytes at rest. Front-ends write characters into it;
//! the protocol layer writes them out to a file descriptor. Nothing converts it to a string.

use vstd::prelude::*;
use vstd::slice::slice_subrange;
use vstd::utf8::{encode_scalar, encode_utf8, is_continuation_byte};

use crate::unicode::{lemma_encode_last, lemma_one_char};

verus! {

/// The number of characters in `bytes`: every byte starts one, except those that continue
/// one.
pub open spec fn char_count(bytes: Seq<u8>) -> nat
    decreases bytes.len(),
{
    if bytes.len() == 0 {
        0
    } else if is_continuation_byte(bytes.last()) {
        char_count(bytes.drop_last())
    } else {
        char_count(bytes.drop_last()) + 1
    }
}

/// `bytes` without its last character: the continuation bytes at the end go, and the byte
/// before them with them.
pub open spec fn without_last_char(bytes: Seq<u8>) -> Seq<u8>
    decreases bytes.len(),
{
    if bytes.len() == 0 {
        bytes
    } else if bytes.len() > 1 && is_continuation_byte(bytes.last()) {
        without_last_char(bytes.drop_last())
    } else {
        bytes.drop_last()
    }
}

/// As much of `bytes` as fits into `cap`.
pub open spec fn clipped(bytes: Seq<u8>, cap: nat) -> Seq<u8> {
    if bytes.len() <= cap {
        bytes
    } else {
        bytes.take(cap as int)
    }
}

/// A run of zeros.
pub open spec fn zeros(n: nat) -> Seq<u8> {
    Seq::new(n, |i: int| 0u8)
}

/// Overwrites a region with zeros.
pub fn wipe(region: &mut [u8])
    ensures
        final(region)@ == zeros(old(region)@.len()),
{
    let n = region.len();
    let mut i: usize = 0;
    while i < n
        invariant
            n == region@.len() == old(region)@.len(),
            i <= n,
            forall|j: int| 0 <= j < i ==> region@[j] == 0,
        decreases n - i,
    {
        region[i] = 0;
        i += 1;
    }
    assert(region@ =~= zeros(n as nat));
}

/// A passphrase, held in a region of memory that somebody else mapped.
pub struct Secret<'a> {
    region: &'a mut [u8],
    len: usize,
    locked: bool,
}

impl<'a> Secret<'a> {
    /// The whole region, used or not.
    pub closed spec fn region(&self) -> Seq<u8> {
        self.region@
    }

    /// How much of the region is used.
    pub closed spec fn used(&self) -> nat {
        self.len as nat
    }

    /// Whether the region was locked in RAM.
    pub closed spec fn pinned(&self) -> bool {
        self.locked
    }

    /// The bytes held.
    pub open spec fn bytes(&self) -> Seq<u8> {
        self.region().take(self.used() as int)
    }

    /// What holds of every buffer: it stays inside its region, and what it does not use is
    /// zero.
    pub open spec fn wf(&self) -> bool {
        &&& self.used() <= self.region().len()
        &&& forall|i: int| self.used() <= i < self.region().len() ==> #[trigger] self.region()[i] == 0
    }

    /// How large a region to map for a buffer of `cap` bytes: a mapping cannot be empty.
    pub fn region_size(cap: usize) -> (n: usize)
        ensures
            n == if cap == 0 {
                1
            } else {
                cap as int
            },
    {
        if cap == 0 {
            1
        } else {
            cap
        }
    }

    /// Takes a region as an empty buffer.
    ///
    /// The capacity is the size of the region and never grows, because growing means copying,
    /// and copying is exactly what this type exists to avoid. pinentry guarantees callers
    /// 2048 characters, so the caller sizes for that once.
    pub fn with_capacity(region: &'a mut [u8], locked: bool) -> (s: Self)
        ensures
            s.wf(),
            s.bytes() == Seq::<u8>::empty(),
            s.region() == zeros(old(region)@.len()),
            s.pinned() == locked,
    {
        wipe(region);
        let s = Secret { region, len: 0, locked };
        assert(s.bytes() =~= Seq::<u8>::empty());
        s
    }

    /// Whether the buffer is actually pinned in RAM. False is worth surfacing: it means the
    /// memlock limit refused, and swap can reach the passphrase after all.
    pub fn is_locked(&self) -> (r: bool)
        ensures
            r == self.pinned(),
    {
        self.locked
    }

    /// Appends bytes, silently ignoring anything past the capacity.
    ///
    /// Silence is deliberate at this layer: the front-end knows the capacity and stops
    /// accepting input before it is reached, so a truncation here would mean a bug rather
    /// than a user typing too much, and returning an error the caller could not act on
    /// would only move the bug somewhere quieter.
    pub fn push(&mut self, bytes: &[u8])
        requires
            old(self).wf(),
        ensures
            final(self).wf(),
            final(self).bytes() == clipped(
                old(self).bytes() + bytes@,
                old(self).region().len(),
            ),
            final(self).region().len() == old(self).region().len(),
            final(self).pinned() == old(self).pinned(),
    {
        let ghost before = self.bytes();
        let mut i: usize = 0;
        assert(before + bytes@.take(0) =~= before);
        while i < bytes.len() && self.len < self.region.len()
            invariant
                i <= bytes@.len(),
                self.wf(),
                self.region().len() == old(self).region().len(),
                self.pinned() == old(self).pinned(),
                before == old(self).bytes(),
                before.len() <= self.region().len(),
                self.bytes() == before + bytes@.take(i as int),
            decreases bytes@.len() - i,
        {
            let ghost was = self.bytes();
            let at: usize = self.len;
            self.region[at] = bytes[i];
            self.len = at + 1;
            assert(self.bytes() =~= was.push(bytes@[i as int]));
            assert(before + bytes@.take(i + 1) =~= was.push(bytes@[i as int]));
            i += 1;
        }
        assert(self.bytes() =~= clipped(before + bytes@, self.region().len()));
    }

    /// Removes the last CHARACTER, not the last byte.
    ///
    /// A Cyrillic letter is two bytes in UTF-8; deleting one of them would leave half a
    /// character behind and desynchronise every count that follows. This is the same lesson
    /// the mask enforces from the other direction.
    pub fn pop_char(&mut self)
        requires
            old(self).wf(),
        ensures
            final(self).wf(),
            final(self).bytes() == without_last_char(old(self).bytes()),
            final(self).region().len() == old(self).region().len(),
            final(self).pinned() == old(self).pinned(),
    {
        if self.len == 0 {
            return;
        }
        let ghost before = self.bytes();
        let mut at: usize = self.len - 1;
        assert(before.take(at + 1) =~= before);
        // Step back over the continuation bytes to the lead byte, zeroing as we go, then
        // remove the lead byte itself.
        while at > 0 && continues(self.region[at])
            invariant
                at < self.used() <= self.region().len(),
                self.used() == old(self).used(),
                self.region().len() == old(self).region().len(),
                self.pinned() == old(self).pinned(),
                before == old(self).bytes(),
                before.len() == self.used(),
                without_last_char(before) == without_last_char(before.take(at + 1)),
                forall|i: int| 0 <= i <= at ==> self.region()[i] == before[i],
                forall|i: int| at < i < self.region().len() ==> #[trigger] self.region()[i] == 0,
            decreases at,
        {
            let ghost t = before.take(at + 1);
            assert(t.drop_last() =~= before.take(at as int));
            assert(t.last() == before[at as int]);
            self.region[at] = 0;
            at -= 1;
        }
        let ghost t = before.take(at + 1);
        assert(t.last() == before[at as int]);
        self.region[at] = 0;
        self.len = at;
        assert(self.bytes() =~= t.drop_last());
    }

    /// The number of CHARACTERS held.
    ///
    /// This is the number the mask displays, and it is the whole reason ward exists.
    /// `pinentry-curses` shows one asterisk per byte, so a Cyrillic passphrase draws two
    /// asterisks per keypress and a wrong keyboard layout looks exactly like a right one.
    /// That silence hid a forgotten passphrase for three years and cost a password store.
    pub fn chars(&self) -> (n: usize)
        requires
            self.wf(),
        ensures
            n == char_count(self.bytes()),
            n <= self.bytes().len(),
    {
        let mut n: usize = 0;
        let mut i: usize = 0;
        while i < self.len
            invariant
                self.wf(),
                i <= self.used(),
                n <= i,
                n == char_count(self.bytes().take(i as int)),
            decreases self.used() - i,
        {
            let ghost t = self.bytes().take(i + 1);
            assert(t.drop_last() =~= self.bytes().take(i as int));
            if !continues(self.region[i]) {
                n += 1;
            }
            i += 1;
        }
        assert(self.bytes().take(i as int) =~= self.bytes());
        n
    }

    /// The number of bytes held. For the protocol layer, not for the mask.
    pub fn len(&self) -> (n: usize)
        requires
            self.wf(),
        ensures
            n == self.bytes().len(),
    {
        self.len
    }

    /// Whether nothing is held.
    pub fn is_empty(&self) -> (r: bool)
        ensures
            r == (self.used() == 0),
            self.wf() ==> r == (self.bytes().len() == 0),
    {
        self.len == 0
    }

    /// The most bytes that can be held.
    pub fn capacity(&self) -> (n: usize)
        ensures
            n == self.region().len(),
    {
        self.region.len()
    }

    /// Borrows the raw bytes. This is the seam where the value could escape, so it is kept
    /// where the whole of it can be read in one sitting.
    pub fn as_bytes(&self) -> (r: &[u8])
        requires
            self.wf(),
        ensures
            r@ == self.bytes(),
    {
        let r = slice_subrange(&*self.region, 0, self.len);
        assert(r@ =~= self.bytes());
        r
    }

    /// Compares two buffers without letting the time taken say how far they agree.
    ///
    /// This compares a passphrase against its confirmation. An early return on the first
    /// differing byte would leak the length of the common prefix through timing — small,
    /// but free to avoid, and the sort of thing that is never added later.
    pub fn eq_constant_time(&self, other: &Secret) -> (r: bool)
        requires
            self.wf(),
            other.wf(),
        ensures
            r == (self.bytes() == other.bytes()),
    {
        let a = self.as_bytes();
        let b = other.as_bytes();
        let n: usize = if a.len() < b.len() {
            a.len()
        } else {
            b.len()
        };
        let mut diff: u8 = if a.len() == b.len() {
            0
        } else {
            1
        };
        let mut i: usize = 0;
        while i < n
            invariant
                a@ == self.bytes(),
                b@ == other.bytes(),
                n <= a@.len(),
                n <= b@.len(),
                i <= n,
                diff == 0 <==> (a@.len() == b@.len() && forall|j: int|
                    0 <= j < i ==> a@[j] == b@[j]),
            decreases n - i,
        {
            let x = a[i];
            let y = b[i];
            assert((diff | (x ^ y)) == 0 <==> (diff == 0 && x == y)) by (bit_vector);
            diff = diff | (x ^ y);
            i += 1;
        }
        assert(diff == 0 && a@.len() == b@.len() ==> a@ =~= b@);
        diff == 0 && a.len() == b.len()
    }

    /// Wipes the contents without releasing the buffer. Used between retry attempts: the
    /// agent re-runs GETPIN after a wrong passphrase, and the previous one must not survive
    /// into the next prompt.
    pub fn clear(&mut self)
        requires
            old(self).wf(),
        ensures
            final(self).wf(),
            final(self).bytes() == Seq::<u8>::empty(),
            final(self).region() == zeros(old(self).region().len()),
            final(self).pinned() == old(self).pinned(),
    {
        wipe(self.region);
        self.len = 0;
        assert(self.bytes() =~= Seq::<u8>::empty());
    }
}

/// Whether a byte continues a character rather than starting one.
pub fn continues(b: u8) -> (r: bool)
    ensures
        r == is_continuation_byte(b),
{
    assert(b & 0xC0 == 0x80 <==> 0x80 <= b <= 0xbf) by (bit_vector);
    b & 0xC0 == 0x80
}

/// A count adds up over a join.
proof fn lemma_count_join(a: Seq<u8>, b: Seq<u8>)
    ensures
        char_count(a + b) == char_count(a) + char_count(b),
    decreases b.len(),
{
    if b.len() == 0 {
        assert(a + b =~= a);
    } else {
        lemma_count_join(a, b.drop_last());
        assert((a + b).drop_last() =~= a + b.drop_last());
        assert((a + b).last() == b.last());
    }
}

/// One byte that starts a character, followed by bytes that continue it, is one character.
proof fn lemma_one_count(e: Seq<u8>)
    requires
        e.len() > 0,
        !is_continuation_byte(e[0]),
        forall|i: int| 1 <= i < e.len() ==> is_continuation_byte(#[trigger] e[i]),
    ensures
        char_count(e) == 1,
    decreases e.len(),
{
    if e.len() > 1 {
        lemma_one_count(e.drop_last());
        assert(is_continuation_byte(e.last()));
    } else {
        assert(char_count(e.drop_last()) == 0);
    }
}

/// Removing the last character takes off one whole encoding.
proof fn lemma_drop_one(a: Seq<u8>, e: Seq<u8>)
    requires
        e.len() > 0,
        !is_continuation_byte(e[0]),
        forall|i: int| 1 <= i < e.len() ==> is_continuation_byte(#[trigger] e[i]),
    ensures
        without_last_char(a + e) == a,
    decreases e.len(),
{
    assert((a + e).drop_last() =~= a + e.drop_last());
    assert((a + e).last() == e.last());
    if e.len() > 1 {
        assert(is_continuation_byte(e.last()));
        lemma_drop_one(a, e.drop_last());
    } else {
        assert(e.drop_last() =~= seq![]);
        assert(a + e.drop_last() =~= a);
    }
}

/// The mask counts characters: a buffer that holds the text `s` counts as many as `s` has,
/// however many bytes each of them takes.
pub proof fn law_counts_characters(s: Seq<char>)
    ensures
        char_count(encode_utf8(s)) == s.len(),
    decreases s.len(),
{
    if s.len() > 0 {
        law_counts_characters(s.drop_last());
        lemma_encode_last(s);
        lemma_one_char(s.last());
        lemma_one_count(encode_scalar(s.last() as u32));
        lemma_count_join(encode_utf8(s.drop_last()), encode_scalar(s.last() as u32));
    }
}

/// Backspace removes a character: from a buffer that holds the text `s`, it leaves `s` without
/// its last character and not one byte more or less.
pub proof fn law_backspace_removes_a_character(s: Seq<char>)
    requires
        s.len() > 0,
    ensures
        without_last_char(encode_utf8(s)) == encode_utf8(s.drop_last()),
{
    lemma_encode_last(s);
    lemma_one_char(s.last());
    lemma_drop_one(encode_utf8(s.drop_last()), encode_scalar(s.last() as u32));
}

/// Typing a character and deleting it again leaves what was there before, whatever that was.
pub proof fn law_backspace_undoes_a_character(before: Seq<u8>, c: char)
    ensures
        without_last_char(before + encode_utf8(seq![c])) == before,
{
    lemma_one_char(c);
    lemma_drop_one(before, encode_scalar(c as u32));
}

} // verus!
