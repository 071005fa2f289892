//! Block geometry: word size, header size, and the padding rules that place a
//! request inside a free block.
use vstd::prelude::*;
use vstd::arithmetic::power2::is_pow2;
use vstd::arithmetic::div_mod::{
    lemma_fundamental_div_mod,
    lemma_mod_multiples_basic,
    lemma_mod_multiples_vanish,
    lemma_mod_pos_bound,
};

verus! {

/// Bytes in one arena word. Every block starts on a word boundary.
pub const WORD_SIZE: usize = 8;

/// Bytes in a block header: a size word followed by a link word (free block)
/// or by the block's own start offset (allocated block).
pub const HEADER_SIZE: usize = 16;

/// The alignment honoured for a request: the requested one, but at least a word.
pub open spec fn effective_align(align: nat) -> nat {
    if align < WORD_SIZE {
        WORD_SIZE as nat
    } else {
        align
    }
}

/// Bytes left in front of the header of a block starting at `start`, so that
/// the user data right after the header is a multiple of `align`.
pub open spec fn front_pad(start: nat, align: nat) -> nat {
    let r = (start + HEADER_SIZE) % (align as int);
    if r == 0 {
        0
    } else {
        (align - r) as nat
    }
}

/// Bytes appended after `size` user bytes to end on a word boundary.
pub open spec fn end_pad(size: nat) -> nat {
    ((8 - size % 8) % 8) as nat
}

/// Bytes that a block starting at `start` must span to serve a request of
/// `size` bytes aligned to `align`: front padding, header, data, end padding.
pub open spec fn needed(start: nat, size: nat, align: nat) -> nat {
    (front_pad(start, effective_align(align)) + HEADER_SIZE + size + end_pad(size)) as nat
}

/// Offset of the user data served from a block starting at `start`.
pub open spec fn user_offset(start: nat, align: nat) -> nat {
    (start + front_pad(start, effective_align(align)) + HEADER_SIZE) as nat
}

/// A power of two below a word divides the word size.
proof fn lemma_small_pow2(a: nat)
    requires
        is_pow2(a as int),
        a < 8,
    ensures
        a == 1 || a == 2 || a == 4,
{
    reveal(is_pow2);
    if a != 1 {
        assert(a % 2 == 0 && is_pow2(a as int / 2));
        let h = a / 2;
        if h != 1 {
            assert(is_pow2(h as int / 2));
            assert(h / 2 == 1) by {
                reveal(is_pow2);
            }
        }
    }
}

/// A power of two of at least a word is a multiple of the word size.
proof fn lemma_large_pow2(a: nat)
    requires
        is_pow2(a as int),
        a >= 8,
    ensures
        a % 8 == 0,
    decreases a,
{
    reveal(is_pow2);
    let h = a / 2;
    assert(a % 2 == 0 && is_pow2(h as int));
    if h >= 8 {
        lemma_large_pow2(h);
    } else {
        lemma_small_pow2(h);
        assert(h == 4);
    }
}

/// The effective alignment is a multiple of the word size and of the request's alignment.
pub proof fn lemma_effective_align(align: nat)
    requires
        is_pow2(align as int),
    ensures
        align > 0,
        effective_align(align) >= WORD_SIZE,
        effective_align(align) % (WORD_SIZE as nat) == 0,
        effective_align(align) % align == 0,
{
    if align < 8 {
        lemma_small_pow2(align);
    } else {
        lemma_large_pow2(align);
        assert(align % align == 0) by {
            lemma_mod_multiples_basic(1, align as int);
        }
    }
}

/// The placement of a request in a word-aligned block: the user data is aligned,
/// the header fits between the block start and the data, and every piece is a
/// whole number of words.
pub proof fn lemma_placement(start: nat, size: nat, align: nat)
    requires
        is_pow2(align as int),
        start % (WORD_SIZE as nat) == 0,
    ensures
        user_offset(start, align) % align == 0,
        user_offset(start, align) % (WORD_SIZE as nat) == 0,
        user_offset(start, align) >= start + HEADER_SIZE,
        user_offset(start, align) + size <= start + needed(start, size, align),
        needed(start, size, align) % (WORD_SIZE as nat) == 0,
        needed(start, size, align) >= HEADER_SIZE + size,
        front_pad(start, effective_align(align)) % (WORD_SIZE as nat) == 0,
        front_pad(start, effective_align(align)) < effective_align(align),
{
    lemma_effective_align(align);
    let a = effective_align(align) as int;
    let x = start + HEADER_SIZE;
    let q = x / a;
    let r = x % a;
    lemma_fundamental_div_mod(x, a);
    lemma_mod_pos_bound(x, a);
    let m = x / 8;
    let n = a / 8;
    lemma_fundamental_div_mod(x, 8);
    lemma_fundamental_div_mod(a, 8);
    assert(x == 8 * m);
    assert(a == 8 * n);
    assert(r == 8 * (m - n * q)) by (nonlinear_arith)
        requires
            x == a * q + r,
            x == 8 * m,
            a == 8 * n,
    ;
    let fp = front_pad(start, a as nat) as int;
    let u = user_offset(start, align) as int;
    if r == 0 {
        assert(u == a * q);
    } else {
        assert(fp == a - r);
        assert(u == a * (q + 1)) by (nonlinear_arith)
            requires
                x == a * q + r,
                u == x + a - r,
        ;
    }
    assert(u % a == 0) by {
        if r == 0 {
            lemma_mod_multiples_basic(q, a);
            assert(a * q == q * a) by (nonlinear_arith);
        } else {
            lemma_mod_multiples_basic(q + 1, a);
            assert(a * (q + 1) == (q + 1) * a) by (nonlinear_arith);
        }
    }
    // u is a multiple of `a`, which is a multiple of the alignment and of a word.
    let k = u / a;
    lemma_fundamental_div_mod(u, a);
    assert(u == a * k);
    let t = a / (align as int);
    lemma_fundamental_div_mod(a, align as int);
    assert(a == (align as int) * t);
    assert(u == (k * t) * (align as int)) by (nonlinear_arith)
        requires
            u == a * k,
            a == (align as int) * t,
    ;
    lemma_mod_multiples_basic(k * t, align as int);
    assert(u == (k * n) * 8) by (nonlinear_arith)
        requires
            u == a * k,
            a == 8 * n,
    ;
    lemma_mod_multiples_basic(k * n, 8);
    // the front padding is a multiple of a word
    if r == 0 {
        assert(fp == 0);
    } else {
        assert(fp == 8 * (n - (m - n * q)));
        lemma_mod_multiples_vanish(n - (m - n * q), 0, 8);
    }
    // the end padding completes the data to a whole number of words
    let e = end_pad(size) as int;
    let sz = size as int;
    lemma_fundamental_div_mod(sz, 8);
    lemma_mod_pos_bound(sz, 8);
    let sq = sz / 8;
    if sz % 8 == 0 {
        assert(e == 0);
        assert(sz == 8 * sq);
    } else {
        assert(e == 8 - sz % 8);
        assert(sz + e == 8 * (sq + 1));
    }
    let w = needed(start, size, align) as int;
    assert(w == fp + 16 + sz + e);
    if r == 0 {
        if sz % 8 == 0 {
            assert(w == 8 * (2 + sq));
            lemma_mod_multiples_vanish(2 + sq, 0, 8);
        } else {
            assert(w == 8 * (2 + sq + 1));
            lemma_mod_multiples_vanish(2 + sq + 1, 0, 8);
        }
    } else {
        let f8 = n - (m - n * q);
        if sz % 8 == 0 {
            assert(w == 8 * (f8 + 2 + sq));
            lemma_mod_multiples_vanish(f8 + 2 + sq, 0, 8);
        } else {
            assert(w == 8 * (f8 + 2 + sq + 1));
            lemma_mod_multiples_vanish(f8 + 2 + sq + 1, 0, 8);
        }
    }
}

} // verus!
