//! Byte-level reads and writes on a flat memory.

use vstd::prelude::*;

verus! {

/// In which order the bytes of a word lie in memory.
#[derive(Debug, Clone, Copy, PartialEq, Eq, Structural)]
pub enum ByteOrder {
    /// Least significant byte first.
    Little,
    /// Most significant byte first.
    Big,
}

/// `mem` with the bytes from `at` on replaced by `bytes`.
pub open spec fn splice(mem: Seq<u8>, at: int, bytes: Seq<u8>) -> Seq<u8> {
    Seq::new(
        mem.len(),
        |i: int|
            if at <= i < at + bytes.len() {
                bytes[i - at]
            } else {
                mem[i]
            },
    )
}

/// Byte number `i` of a word, counted from the least significant one: a digit to base 256.
pub open spec fn digit(w: u64, i: int) -> u8 {
    (if i == 0 {
        w as int % 256
    } else if i == 1 {
        w as int / 0x100 % 256
    } else if i == 2 {
        w as int / 0x1_0000 % 256
    } else if i == 3 {
        w as int / 0x100_0000 % 256
    } else if i == 4 {
        w as int / 0x1_0000_0000 % 256
    } else if i == 5 {
        w as int / 0x100_0000_0000 % 256
    } else if i == 6 {
        w as int / 0x1_0000_0000_0000 % 256
    } else {
        w as int / 0x100_0000_0000_0000
    }) as u8
}

/// The bytes of a word.
#[verifier::opaque]
pub open spec fn word_bytes(order: ByteOrder, w: u64) -> Seq<u8> {
    Seq::new(
        8,
        |i: int|
            match order {
                ByteOrder::Little => digit(w, i),
                ByteOrder::Big => digit(w, 7 - i),
            },
    )
}

/// The number that eight bytes stand for, the least significant one first.
pub open spec fn value(bytes: Seq<u8>) -> int {
    bytes[0] + bytes[1] * 0x100 + bytes[2] * 0x1_0000 + bytes[3] * 0x100_0000 + bytes[4]
        * 0x1_0000_0000 + bytes[5] * 0x100_0000_0000 + bytes[6] * 0x1_0000_0000_0000 + bytes[7]
        * 0x100_0000_0000_0000
}

/// The word whose bytes these are.
#[verifier::opaque]
pub open spec fn word_of(order: ByteOrder, bytes: Seq<u8>) -> u64 {
    match order {
        ByteOrder::Little => value(bytes) as u64,
        ByteOrder::Big => value(bytes.reverse()) as u64,
    }
}

/// The word stored in the eight bytes from `at` on.
pub open spec fn word_at(order: ByteOrder, mem: Seq<u8>, at: int) -> u64 {
    word_of(order, mem.subrange(at, at + 8))
}

/// The bytes of a word are its digits to base 256: the least significant one comes first in the one
/// order and last in the other, and together they make up the word.
pub proof fn law_word_digits(w: u64)
    ensures
        ({
            let b = word_bytes(ByteOrder::Little, w);
            &&& b.len() == 8
            &&& w == b[0] + 0x100 * (b[1] + 0x100 * (b[2] + 0x100 * (b[3] + 0x100 * (b[4] + 0x100
                * (b[5] + 0x100 * (b[6] + 0x100 * b[7]))))))
        }),
        word_bytes(ByteOrder::Big, w).len() == 8,
        forall|i: int|
            0 <= i < 8 ==> #[trigger] word_bytes(ByteOrder::Big, w)[i] == word_bytes(
                ByteOrder::Little,
                w,
            )[7 - i],
{
    reveal(word_bytes);
    let n = w as int;
    let q1 = n / 0x100;
    let q2 = q1 / 0x100;
    let q3 = q2 / 0x100;
    let q4 = q3 / 0x100;
    let q5 = q4 / 0x100;
    let q6 = q5 / 0x100;
    let q7 = q6 / 0x100;
    assert(q2 == n / 0x1_0000);
    assert(q3 == n / 0x100_0000);
    assert(q4 == n / 0x1_0000_0000);
    assert(q5 == n / 0x100_0000_0000);
    assert(q6 == n / 0x1_0000_0000_0000);
    assert(q7 == n / 0x100_0000_0000_0000);
}

/// A word has eight bytes, and they determine it.
pub proof fn lemma_word_bytes()
    ensures
        forall|order: ByteOrder, w: u64|
            (#[trigger] word_bytes(order, w)).len() == 8 && word_of(order, word_bytes(order, w))
                == w,
{
    reveal(word_of);
    assert forall|order: ByteOrder, w: u64|
        (#[trigger] word_bytes(order, w)).len() == 8 && word_of(order, word_bytes(order, w))
            == w by {
        law_word_digits(w);
        assert(word_bytes(ByteOrder::Big, w).reverse() =~= word_bytes(ByteOrder::Little, w));
    }
}

/// Eight bytes stand for the word that has these bytes.
pub proof fn law_word_of_bytes(order: ByteOrder, bytes: Seq<u8>)
    requires
        bytes.len() == 8,
    ensures
        word_bytes(order, word_of(order, bytes)) == bytes,
{
    reveal(word_bytes);
    reveal(word_of);
    let little = match order {
        ByteOrder::Little => bytes,
        ByteOrder::Big => bytes.reverse(),
    };
    let w = word_of(order, bytes);
    let n = value(little);
    let r7 = little[7] as int;
    let r6 = little[6] + 0x100 * r7;
    let r5 = little[5] + 0x100 * r6;
    let r4 = little[4] + 0x100 * r5;
    let r3 = little[3] + 0x100 * r4;
    let r2 = little[2] + 0x100 * r3;
    let r1 = little[1] + 0x100 * r2;
    assert(n == little[0] + 0x100 * r1);
    assert(0 <= n <= u64::MAX);
    assert(w == n);
    assert(n / 0x100 == r1);
    assert(n / 0x1_0000 == r2);
    assert(n / 0x100_0000 == r3);
    assert(n / 0x1_0000_0000 == r4);
    assert(n / 0x100_0000_0000 == r5);
    assert(n / 0x1_0000_0000_0000 == r6);
    assert(n / 0x100_0000_0000_0000 == r7);
    assert(digit(w, 0) == little[0]);
    assert(digit(w, 1) == little[1]);
    assert(digit(w, 2) == little[2]);
    assert(digit(w, 3) == little[3]);
    assert(digit(w, 4) == little[4]);
    assert(digit(w, 5) == little[5]);
    assert(digit(w, 6) == little[6]);
    assert(digit(w, 7) == little[7]);
    assert(word_bytes(order, w) =~= bytes);
}

/// Writing bytes replaces what lies from `at` on by them, and keeps what lies before and behind them.
pub proof fn law_splice(mem: Seq<u8>, at: int, bytes: Seq<u8>)
    requires
        0 <= at,
        at + bytes.len() <= mem.len(),
    ensures
        splice(mem, at, bytes) == mem.take(at) + bytes + mem.skip(at + bytes.len()),
{
    assert(splice(mem, at, bytes) =~= mem.take(at) + bytes + mem.skip(at + bytes.len()));
}

/// The eight bytes in memory from `at` on are those of the word that is stored there.
pub proof fn law_word_at(order: ByteOrder, mem: Seq<u8>, at: int)
    requires
        0 <= at,
        at + 8 <= mem.len(),
    ensures
        word_bytes(order, word_at(order, mem, at)) == mem.subrange(at, at + 8),
{
    law_word_of_bytes(order, mem.subrange(at, at + 8));
}

/// A word written at `at` is read back from `at`.
pub proof fn lemma_word_written(order: ByteOrder, mem: Seq<u8>, at: int, w: u64)
    requires
        0 <= at,
        at + 8 <= mem.len(),
    ensures
        word_bytes(order, w).len() == 8,
        word_at(order, splice(mem, at, word_bytes(order, w)), at) == w,
{
    lemma_word_bytes();
    assert(splice(mem, at, word_bytes(order, w)).subrange(at, at + 8) =~= word_bytes(order, w));
}

/// Two memories that agree on eight bytes hold the same word there.
pub proof fn lemma_same_word(order: ByteOrder, a: Seq<u8>, b: Seq<u8>, at: int)
    requires
        0 <= at,
        at + 8 <= a.len(),
        at + 8 <= b.len(),
        forall|i: int| at <= i < at + 8 ==> a[i] == b[i],
    ensures
        word_at(order, a, at) == word_at(order, b, at),
{
    assert(a.subrange(at, at + 8) =~= b.subrange(at, at + 8));
}

/// The bytes of a word as this machine lays them out, by `u64::to_ne_bytes`. It is taken on trust
/// that they are the bytes of the word in one of the two orders. Which of the two it is depends on
/// the machine and is not stated.
#[verifier::external_body]
pub(crate) fn native_bytes(w: u64) -> (bytes: [u8; 8])
    ensures
        bytes@ == word_bytes(ByteOrder::Little, w) || bytes@ == word_bytes(ByteOrder::Big, w),
{
    w.to_ne_bytes()
}

/// Whether this machine lays out words in the given order: asked for the bytes of the word one, it
/// answers with those in this order.
pub closed spec fn is_native(order: ByteOrder) -> bool {
    exists|one: [u8; 8]| #[trigger]
        call_ensures(native_bytes, (1u64,), one) && one@ == word_bytes(order, 1)
}

/// If this machine lays out words in the given order, it has given the bytes of the word one with the
/// one that is not zero at the end where this order has it.
pub(crate) proof fn law_native_order(order: ByteOrder)
    requires
        is_native(order),
    ensures
        exists|one: [u8; 8]| #[trigger]
            call_ensures(native_bytes, (1u64,), one) && (match order {
                ByteOrder::Little => one@[0] == 1 && one@[7] == 0,
                ByteOrder::Big => one@[0] == 0 && one@[7] == 1,
            }),
{
    law_word_digits(1);
    let one = choose|one: [u8; 8]| #[trigger]
        call_ensures(native_bytes, (1u64,), one) && one@ == word_bytes(order, 1);
    assert(call_ensures(native_bytes, (1u64,), one));
    assert(word_bytes(ByteOrder::Big, 1)[0] == word_bytes(ByteOrder::Little, 1)[7]);
    assert(word_bytes(ByteOrder::Big, 1)[7] == word_bytes(ByteOrder::Little, 1)[0]);
}

/// Calls the function on the word one.
fn ask<F: Fn(u64) -> [u8; 8]>(f: F) -> (one: [u8; 8])
    requires
        call_requires(f, (1u64,)),
    ensures
        call_ensures(f, (1u64,), one),
{
    f(1)
}

/// The order in which this machine lays out the bytes of a word.
pub(crate) fn native_order() -> (order: ByteOrder)
    ensures
        is_native(order),
{
    let one = ask(native_bytes);
    order_of_one(&one)
}

/// The order in which these bytes are those of the word one.
pub fn order_of_one(one: &[u8; 8]) -> (order: ByteOrder)
    requires
        one@ == word_bytes(ByteOrder::Little, 1) || one@ == word_bytes(ByteOrder::Big, 1),
    ensures
        one@ == word_bytes(order, 1),
        order == ByteOrder::Little <==> one@[0] == 1,
{
    proof {
        law_word_digits(1);
    }
    if one[0] == 1 {
        ByteOrder::Little
    } else {
        ByteOrder::Big
    }
}

/// Copies `bytes` over the memory from `at` on.
pub fn write_bytes(mem: &mut Vec<u8>, at: usize, bytes: &[u8])
    requires
        at + bytes.len() <= old(mem).len(),
    ensures
        final(mem)@ == splice(old(mem)@, at as int, bytes@),
{
    let mut i: usize = 0;
    let n: usize = bytes.len();
    while i < n
        invariant
            i <= n,
            n == bytes@.len(),
            at + n <= old(mem).len(),
            mem@ == splice(old(mem)@, at as int, bytes@.take(i as int)),
        decreases n - i,
    {
        mem[at + i] = bytes[i];
        i = i + 1;
        proof {
            assert(mem@ =~= splice(old(mem)@, at as int, bytes@.take(i as int)));
        }
    }
    proof {
        assert(bytes@.take(n as int) =~= bytes@);
    }
}

/// Eight bytes in the opposite order.
fn reversed(bytes: &[u8]) -> (r: [u8; 8])
    requires
        bytes@.len() == 8,
    ensures
        r@ == bytes@.reverse(),
{
    let r = [
        bytes[7],
        bytes[6],
        bytes[5],
        bytes[4],
        bytes[3],
        bytes[2],
        bytes[1],
        bytes[0],
    ];
    proof {
        assert(r@ =~= bytes@.reverse());
    }
    r
}

/// Stores a word.
pub fn write_word(order: ByteOrder, mem: &mut Vec<u8>, at: usize, w: u64)
    requires
        at + 8 <= old(mem).len(),
    ensures
        final(mem)@ == splice(old(mem)@, at as int, word_bytes(order, w)),
{
    let d0: u8 = (w % 256) as u8;
    let d1: u8 = (w / 0x100 % 256) as u8;
    let d2: u8 = (w / 0x1_0000 % 256) as u8;
    let d3: u8 = (w / 0x100_0000 % 256) as u8;
    let d4: u8 = (w / 0x1_0000_0000 % 256) as u8;
    let d5: u8 = (w / 0x100_0000_0000 % 256) as u8;
    let d6: u8 = (w / 0x1_0000_0000_0000 % 256) as u8;
    let d7: u8 = (w / 0x100_0000_0000_0000) as u8;
    let little: [u8; 8] = [d0, d1, d2, d3, d4, d5, d6, d7];
    let bytes: [u8; 8] = match order {
        ByteOrder::Little => little,
        ByteOrder::Big => reversed(little.as_slice()),
    };
    proof {
        reveal(word_bytes);
        assert(bytes@ =~= word_bytes(order, w));
    }
    write_bytes(mem, at, bytes.as_slice());
}

/// Loads the word stored from `at` on.
pub fn read_word(order: ByteOrder, mem: &Vec<u8>, at: usize) -> (w: u64)
    requires
        at + 8 <= mem.len(),
    ensures
        w == word_at(order, mem@, at as int),
{
    let b: [u8; 8] = match order {
        ByteOrder::Little => [
            mem[at],
            mem[at + 1],
            mem[at + 2],
            mem[at + 3],
            mem[at + 4],
            mem[at + 5],
            mem[at + 6],
            mem[at + 7],
        ],
        ByteOrder::Big => [
            mem[at + 7],
            mem[at + 6],
            mem[at + 5],
            mem[at + 4],
            mem[at + 3],
            mem[at + 2],
            mem[at + 1],
            mem[at],
        ],
    };
    proof {
        reveal(word_of);
        let bytes = mem@.subrange(at as int, at + 8);
        match order {
            ByteOrder::Little => {
                assert(b@ =~= bytes);
            },
            ByteOrder::Big => {
                assert(b@ =~= bytes.reverse());
            },
        }
    }
    b[0] as u64 + b[1] as u64 * 0x100 + b[2] as u64 * 0x1_0000 + b[3] as u64 * 0x100_0000 + b[4]
        as u64 * 0x1_0000_0000 + b[5] as u64 * 0x100_0000_0000 + b[6] as u64
        * 0x1_0000_0000_0000 + b[7] as u64 * 0x100_0000_0000_0000
}

} // verus!
