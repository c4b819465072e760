//! A queue of bytes in a buffer of fixed size.

use vstd::arithmetic::div_mod::*;
use vstd::prelude::*;

verus! {

/// The size of the buffer. It divides the range of the positions.
pub const RING_CAP: usize = 0x40_0000;

/// A queue of bytes: they are written at `head` and read at `tail`, each of which
/// goes round the buffer.
#[derive(Debug)]
pub struct RingBuffer {
    data: Vec<u8>,
    head: u64,
    tail: u64,
}

/// What lies between two positions.
spec fn distance(head: u64, tail: u64) -> nat {
    if head >= tail {
        (head - tail) as nat
    } else {
        (head + 0x1_0000_0000_0000_0000 - tail) as nat
    }
}

/// The place in the buffer of a position that is moved on.
spec fn place(position: int, i: int) -> int {
    (position + i) % (RING_CAP as int)
}

impl View for RingBuffer {
    type V = Seq<u8>;

    /// The bytes in the queue, the next one to be read first.
    closed spec fn view(&self) -> Seq<u8> {
        Seq::new(
            distance(self.head, self.tail),
            |i: int| self.data@[place(self.tail as int, i)],
        )
    }
}

/// Positions that are equal up to their range are equal up to the buffer's size.
proof fn lemma_position(x: int)
    requires
        x >= 0,
    ensures
        (x % 0x1_0000_0000_0000_0000) % (RING_CAP as int) == x % (RING_CAP as int),
{
    assert(0x1_0000_0000_0000_0000 == 0x400_0000_0000int * RING_CAP);
    lemma_mod_mod(x, RING_CAP as int, 0x400_0000_0000);
    vstd::arithmetic::mul::lemma_mul_is_commutative(RING_CAP as int, 0x400_0000_0000);
}

/// Places that are less than a buffer apart are different.
proof fn lemma_places_differ(a: int, b: int)
    requires
        0 <= a < b < a + RING_CAP,
    ensures
        a % (RING_CAP as int) != b % (RING_CAP as int),
{
    let m = RING_CAP as int;
    if a % m == b % m {
        lemma_mod_equivalence(b, a, m);
        lemma_small_mod((b - a) as nat, m as nat);
    }
}

impl RingBuffer {
    /// That the buffer is whole and holds no more than it can.
    pub closed spec fn wf(&self) -> bool {
        &&& self.data@.len() == RING_CAP
        &&& distance(self.head, self.tail) <= RING_CAP
    }

    /// An empty queue.
    pub fn new() -> (r: Self)
        ensures
            r.wf(),
            r@ == Seq::<u8>::empty(),
    {
        let r = RingBuffer { data: vec![0u8; RING_CAP], head: 0, tail: 0 };
        assert(r@ =~= Seq::<u8>::empty());
        r
    }

    /// The number of bytes in the queue.
    pub fn len(&self) -> (r: usize)
        requires
            self.wf(),
        ensures
            r == self@.len(),
            r <= RING_CAP,
    {
        self.head.wrapping_sub(self.tail) as usize
    }

    /// Adds bytes to the queue, all or, where they do not fit, none.
    pub fn push(&mut self, bytes: &[u8]) -> (r: bool)
        requires
            old(self).wf(),
        ensures
            final(self).wf(),
            r == (old(self)@.len() + bytes@.len() <= RING_CAP),
            r ==> final(self)@ == old(self)@ + bytes@,
            !r ==> final(self)@ == old(self)@,
    {
        let used: usize = self.len();
        let n: usize = bytes.len();
        if n > RING_CAP - used {
            return false;
        }
        let ghost before = self@;
        let ghost old_data = self.data@;
        let ghost head0 = self.tail + used;
        proof {
            lemma_position(head0);
            assert(self.head as int == head0 % 0x1_0000_0000_0000_0000) by {
                if self.head >= self.tail {
                    lemma_small_mod(head0 as nat, 0x1_0000_0000_0000_0000);
                } else {
                    lemma_fundamental_div_mod_converse(
                        head0,
                        0x1_0000_0000_0000_0000,
                        1,
                        self.head as int,
                    );
                }
            }
        }
        let start: usize = (self.head % (RING_CAP as u64)) as usize;
        let mut i: usize = 0;
        while i < n
            invariant
                i <= n,
                n == bytes@.len(),
                n <= RING_CAP - used,
                used <= RING_CAP,
                self.data@.len() == RING_CAP,
                old_data.len() == RING_CAP,
                self.tail == old(self).tail,
                self.head == old(self).head,
                head0 == self.tail + used,
                start == head0 % (RING_CAP as int),
                forall|j: int|
                    0 <= j < used ==> self.data@[#[trigger] place(self.tail as int, j)]
                        == old_data[place(self.tail as int, j)],
                forall|j: int|
                    0 <= j < i ==> self.data@[#[trigger] place(head0, j)] == bytes@[j],
            decreases n - i,
        {
            let at: usize = (start + i) % RING_CAP;
            let ghost was = self.data@;
            self.data.set(at, bytes[i]);
            proof {
                lemma_mod_adds_small(head0, i as int);
                assert forall|j: int| 0 <= j < used implies self.data@[#[trigger] place(
                    self.tail as int,
                    j,
                )] == old_data[place(self.tail as int, j)] by {
                    lemma_places_differ(self.tail + j, head0 + i);
                    lemma_mod_bound(self.tail + j, RING_CAP as int);
                    assert(was[place(self.tail as int, j)] == old_data[place(
                        self.tail as int,
                        j,
                    )]);
                }
                assert forall|j: int| 0 <= j < i + 1 implies self.data@[#[trigger] place(head0, j)]
                    == bytes@[j] by {
                    lemma_mod_bound(head0 + j, RING_CAP as int);
                    if j < i {
                        lemma_places_differ(head0 + j, head0 + i);
                        assert(was[place(head0, j)] == bytes@[j]);
                    }
                }
            }
            i = i + 1;
        }
        self.head = self.head.wrapping_add(n as u64);
        proof {
            assert(distance(self.head, self.tail) == used + n);
            assert forall|j: int| 0 <= j < used + n implies #[trigger] self@[j] == (before
                + bytes@)[j] by {
                if j < used {
                    assert(self.data@[place(self.tail as int, j)] == old_data[place(
                        self.tail as int,
                        j,
                    )]);
                } else {
                    assert(self.data@[place(head0, j - used)] == bytes@[j - used]);
                    assert(place(head0, j - used) == place(self.tail as int, j));
                }
            }
            assert(self@ =~= before + bytes@);
        }
        true
    }

    /// Moves up to `max` bytes from the queue to the end of a list, and counts
    /// them.
    pub fn drain(&mut self, out: &mut Vec<u8>, max: usize) -> (r: usize)
        requires
            old(self).wf(),
        ensures
            final(self).wf(),
            r as nat == if old(self)@.len() < max {
                old(self)@.len()
            } else {
                max as nat
            },
            final(out)@ == old(out)@ + old(self)@.take(r as int),
            final(self)@ == old(self)@.skip(r as int),
    {
        let available: usize = self.len();
        let to_read: usize = if available < max {
            available
        } else {
            max
        };
        let ghost before = self@;
        let ghost had = out@;
        let start: usize = (self.tail % (RING_CAP as u64)) as usize;
        let mut i: usize = 0;
        assert(had + before.take(0) =~= had);
        while i < to_read
            invariant
                i <= to_read <= available,
                available == before.len(),
                available <= RING_CAP,
                self.data@.len() == RING_CAP,
                self@ == before,
                start == self.tail % (RING_CAP as u64),
                out@ == had + before.take(i as int),
            decreases to_read - i,
        {
            let at: usize = (start + i) % RING_CAP;
            proof {
                lemma_mod_adds_small(self.tail as int, i as int);
                assert(before[i as int] == self.data@[at as int]);
            }
            out.push(self.data[at]);
            assert(out@ =~= had + before.take(i as int + 1));
            i = i + 1;
        }
        let ghost tail0 = self.tail;
        self.tail = self.tail.wrapping_add(to_read as u64);
        proof {
            assert(distance(self.head, self.tail) == available - to_read);
            assert forall|j: int| 0 <= j < available - to_read implies #[trigger] self@[j]
                == before.skip(to_read as int)[j] by {
                let x = tail0 + to_read + j;
                lemma_position(x);
                lemma_position(self.tail + j);
                assert(x % (RING_CAP as int) == (self.tail + j) % (RING_CAP as int)) by {
                    if self.tail < tail0 {
                        lemma_mod_multiples_vanish(
                            0x400_0000_0000,
                            self.tail + j,
                            RING_CAP as int,
                        );
                        assert(x == RING_CAP as int * 0x400_0000_0000 + (self.tail + j));
                    }
                }
                assert(before[to_read + j] == self.data@[place(tail0 as int, to_read + j)]);
            }
            assert(self@ =~= before.skip(to_read as int));
        }
        to_read
    }
}

/// The place of a position that is moved on within the buffer.
proof fn lemma_mod_adds_small(x: int, i: int)
    ensures
        (x % (RING_CAP as int) + i) % (RING_CAP as int) == (x + i) % (RING_CAP as int),
{
    lemma_add_mod_noop(x, i, RING_CAP as int);
    lemma_add_mod_noop(x % (RING_CAP as int), i, RING_CAP as int);
    lemma_mod_twice(x, RING_CAP as int);
}

/// What is read from a queue, and then what is left in it, is what was written,
/// in order.
pub proof fn law_ring_is_fifo(contents: Seq<u8>, pushed: Seq<u8>, n: int)
    requires
        0 <= n <= contents.len() + pushed.len(),
    ensures
        (contents + pushed).take(n) + (contents + pushed).skip(n) == contents + pushed,
{
    assert((contents + pushed).take(n) + (contents + pushed).skip(n) =~= contents + pushed);
}

} // verus!
