//! Canonical wire framing: length-prefixed byte strings and nested lists,
//! with minimal big-endian lengths, as used by the transaction codec.
//!
//! A frame is either a byte string or a list payload. Every logical value
//! has exactly one framed representation, and the parser accepts exactly
//! the canonical form: a value that round-trips is byte-identical.

use vstd::prelude::*;

verus! {

// ------------------------------------------------------------------
// Minimal big-endian integers
// ------------------------------------------------------------------

/// Minimal big-endian bytes of a natural number: no leading zero byte,
/// and zero is the empty sequence.
pub open spec fn be_bytes(n: nat) -> Seq<u8>
    decreases n,
{
    if n == 0 {
        Seq::empty()
    } else {
        be_bytes(n / 256).push((n % 256) as u8)
    }
}

/// Numeric value of big-endian bytes.
pub open spec fn be_val(s: Seq<u8>) -> nat
    decreases s.len(),
{
    if s.len() == 0 {
        0
    } else {
        (be_val(s.drop_last()) * 256 + s.last()) as nat
    }
}

pub open spec fn pow256(k: nat) -> nat
    decreases k,
{
    if k == 0 {
        1
    } else {
        256 * pow256((k - 1) as nat)
    }
}

pub proof fn lemma_pow256_values()
    ensures
        pow256(7) == 0x100_0000_0000_0000,
        pow256(8) == 0x1_0000_0000_0000_0000,
{
    assert(pow256(0) == 1);
    assert(pow256(1) == 256);
    assert(pow256(2) == 0x1_0000);
    assert(pow256(3) == 0x100_0000);
    assert(pow256(4) == 0x1_0000_0000);
    assert(pow256(5) == 0x100_0000_0000);
    assert(pow256(6) == 0x1_0000_0000_0000);
    assert(pow256(7) == 0x100_0000_0000_0000);
    assert(pow256(8) == 0x1_0000_0000_0000_0000);
}

pub proof fn lemma_pow256_mono(a: nat, b: nat)
    requires
        a <= b,
    ensures
        pow256(a) <= pow256(b),
    decreases b,
{
    if a < b {
        lemma_pow256_mono(a, (b - 1) as nat);
        assert(pow256(b) == 256 * pow256((b - 1) as nat));
    }
}

pub proof fn lemma_be_bytes_val(n: nat)
    ensures
        be_val(be_bytes(n)) == n,
    decreases n,
{
    if n > 0 {
        lemma_be_bytes_val(n / 256);
        assert(be_bytes(n).drop_last() =~= be_bytes(n / 256));
        assert(be_bytes(n).last() == (n % 256) as u8);
    }
}

pub proof fn lemma_be_bytes_first(n: nat)
    requires
        n > 0,
    ensures
        be_bytes(n).len() >= 1,
        be_bytes(n)[0] != 0,
    decreases n,
{
    if n < 256 {
        assert(n / 256 == 0);
        assert(be_bytes(0) == Seq::<u8>::empty());
        assert(be_bytes(n) =~= Seq::empty().push((n % 256) as u8));
        assert(be_bytes(n)[0] == (n % 256) as u8);
        assert(n % 256 == n);
    } else {
        lemma_be_bytes_first(n / 256);
        assert(be_bytes(n)[0] == be_bytes(n / 256)[0]);
    }
}

pub proof fn lemma_be_bytes_len(n: nat, k: nat)
    requires
        n < pow256(k),
    ensures
        be_bytes(n).len() <= k,
    decreases k,
{
    if n > 0 {
        assert(k > 0);
        let m = pow256((k - 1) as nat);
        assert(n < 256 * m);
        assert(n / 256 < m) by {
            if n / 256 >= m {
                vstd::arithmetic::div_mod::lemma_fundamental_div_mod(n as int, 256);
                assert(n == 256 * (n as int / 256) + n as int % 256);
                assert(256 * (n as int / 256) >= 256 * m) by (nonlinear_arith)
                    requires
                        n as int / 256 >= m,
                ;
            }
        }
        lemma_be_bytes_len(n / 256, (k - 1) as nat);
    }
}

pub proof fn lemma_be_val_pos(s: Seq<u8>)
    requires
        s.len() >= 1,
        s[0] != 0,
    ensures
        be_val(s) >= 1,
    decreases s.len(),
{
    if s.len() > 1 {
        assert(s.drop_last()[0] == s[0]);
        lemma_be_val_pos(s.drop_last());
    }
}

/// Big-endian bytes with no leading zero are recovered exactly from
/// their value.
pub proof fn lemma_be_val_be_bytes(s: Seq<u8>)
    requires
        s.len() == 0 || s[0] != 0,
    ensures
        be_bytes(be_val(s)) == s,
    decreases s.len(),
{
    if s.len() == 0 {
        assert(be_bytes(0) =~= s);
    } else if s.len() == 1 {
        let l = s[0];
        assert(s.drop_last() =~= Seq::<u8>::empty());
        assert(be_val(Seq::<u8>::empty()) == 0);
        assert(be_val(s) == l);
        assert(l > 0);
        assert(be_bytes(l as nat) =~= be_bytes((l as nat) / 256).push(((l as nat) % 256) as u8));
        assert((l as nat) / 256 == 0);
        assert(be_bytes(l as nat) =~= s);
    } else {
        let s0 = s.drop_last();
        let l = s.last();
        assert(s0[0] == s[0]);
        lemma_be_val_be_bytes(s0);
        lemma_be_val_pos(s0);
        let n = be_val(s);
        assert(n == be_val(s0) * 256 + l);
        assert(n / 256 == be_val(s0) && n % 256 == l) by {
            vstd::arithmetic::div_mod::lemma_fundamental_div_mod_converse(
                n as int, 256, be_val(s0) as int, l as int);
        }
        assert(n > 0) by {
            assert(be_val(s0) >= 1);
        }
        assert(be_bytes(n) == be_bytes(be_val(s0)).push(l as u8));
        assert(be_bytes(n) =~= s);
    }
}

// ------------------------------------------------------------------
// Frames: canonical byte-string and list encodings
// ------------------------------------------------------------------

/// Header bytes placed before a payload of length `len`; `base` is
/// 0x80 for byte strings and 0xc0 for lists.
pub open spec fn len_header(base: nat, len: nat) -> Seq<u8> {
    if len <= 55 {
        seq![(base + len) as u8]
    } else {
        seq![(base + 55 + be_bytes(len).len()) as u8] + be_bytes(len)
    }
}

/// Canonical encoding of a byte string.
pub open spec fn rlp_str(p: Seq<u8>) -> Seq<u8> {
    if p.len() == 1 && p[0] < 0x80 {
        p
    } else {
        len_header(0x80, p.len()) + p
    }
}

/// Canonical encoding of a list with concatenated payload `p`.
pub open spec fn rlp_list(p: Seq<u8>) -> Seq<u8> {
    len_header(0xc0, p.len()) + p
}

/// A frame is a byte string (`is_list == false`) or a list.
pub open spec fn rlp_frame(is_list: bool, p: Seq<u8>) -> Seq<u8> {
    if is_list {
        rlp_list(p)
    } else {
        rlp_str(p)
    }
}

pub proof fn lemma_frame_len(is_list: bool, p: Seq<u8>)
    requires
        p.len() < 0x1_0000_0000_0000_0000,
    ensures
        rlp_frame(is_list, p).len() >= 1,
        p.len() <= rlp_frame(is_list, p).len() <= p.len() + 9,
{
    if !(p.len() == 1 && p[0] < 0x80 && !is_list) {
        if p.len() > 55 {
            lemma_pow256_values();
            lemma_be_bytes_len(p.len(), 8);
            lemma_be_bytes_first(p.len());
        }
    }
}

/// The header of a frame, as the parser reads it: kind, header length
/// and payload length, or `None` where no canonical frame starts here.
pub open spec fn spec_parse(s: Seq<u8>) -> Option<(bool, int, int)> {
    if s.len() == 0 {
        None
    } else {
        let c = s[0];
        if c < 0x80 {
            Some((false, 0int, 1int))
        } else if c <= 0xb7 {
            let l: int = c - 0x80;
            if s.len() >= 1 + l && !(l == 1 && s[1] < 0x80) {
                Some((false, 1int, l))
            } else {
                None
            }
        } else if c <= 0xbf {
            let lol: int = c - 0xb7;
            if s.len() >= 1 + lol && s[1] != 0 {
                let n = be_val(s.subrange(1, 1 + lol));
                if n > 55 && s.len() >= 1 + lol + n {
                    Some((false, 1 + lol, n as int))
                } else {
                    None
                }
            } else {
                None
            }
        } else if c <= 0xf7 {
            let l: int = c - 0xc0;
            if s.len() >= 1 + l {
                Some((true, 1int, l))
            } else {
                None
            }
        } else {
            let lol: int = c - 0xf7;
            if s.len() >= 1 + lol && s[1] != 0 {
                let n = be_val(s.subrange(1, 1 + lol));
                if n > 55 && s.len() >= 1 + lol + n {
                    Some((true, 1 + lol, n as int))
                } else {
                    None
                }
            } else {
                None
            }
        }
    }
}

/// A parsed header delimits exactly one canonical frame: the bytes it
/// covers are the canonical encoding of the payload it delimits.
pub proof fn lemma_parse_sound(s: Seq<u8>)
    requires
        spec_parse(s) is Some,
    ensures
        ({
            let h = spec_parse(s)->Some_0;
            &&& 0 <= h.1
            &&& 0 < h.1 + h.2
            &&& 0 <= h.2
            &&& h.1 + h.2 <= s.len()
            &&& s.subrange(0, h.1 + h.2) == rlp_frame(h.0, s.subrange(h.1, h.1 + h.2))
        }),
{
    let c = s[0];
    let h = spec_parse(s)->Some_0;
    let p = s.subrange(h.1, h.1 + h.2);
    if c < 0x80 {
        assert(p =~= seq![c]);
        assert(rlp_frame(false, p) == p);
        assert(s.subrange(0, 1) =~= p);
    } else if c <= 0xb7 {
        let l: int = c - 0x80;
        assert(p.len() == l);
        if l == 1 {
            assert(p[0] == s[1]);
            assert(p[0] >= 0x80);
        }
        assert(rlp_str(p) == len_header(0x80, p.len()) + p);
        assert(len_header(0x80, l as nat) =~= seq![c]);
        assert(s.subrange(0, h.1 + h.2) =~= seq![c] + p);
    } else if c <= 0xbf {
        let lol: int = c - 0xb7;
        let bl = s.subrange(1, 1 + lol);
        let n = be_val(bl);
        assert(bl[0] == s[1]);
        lemma_be_val_be_bytes(bl);
        assert(be_bytes(n) == bl);
        assert(p.len() == n);
        assert(n > 55);
        assert(rlp_str(p) == len_header(0x80, n) + p);
        assert(len_header(0x80, n) == seq![(0x80 + 55 + lol) as u8] + bl);
        assert((0x80 + 55 + lol) as u8 == c);
        assert(s.subrange(0, h.1 + h.2) =~= (seq![c] + bl) + p);
    } else if c <= 0xf7 {
        let l: int = c - 0xc0;
        assert(p.len() == l);
        assert(rlp_list(p) == len_header(0xc0, p.len()) + p);
        assert(len_header(0xc0, l as nat) =~= seq![c]);
        assert(s.subrange(0, h.1 + h.2) =~= seq![c] + p);
    } else {
        let lol: int = c - 0xf7;
        let bl = s.subrange(1, 1 + lol);
        let n = be_val(bl);
        assert(bl[0] == s[1]);
        lemma_be_val_be_bytes(bl);
        assert(be_bytes(n) == bl);
        assert(p.len() == n);
        assert(rlp_list(p) == len_header(0xc0, n) + p);
        assert(len_header(0xc0, n) == seq![(0xc0 + 55 + lol) as u8] + bl);
        assert((0xc0 + 55 + lol) as u8 == c);
        assert(s.subrange(0, h.1 + h.2) =~= (seq![c] + bl) + p);
    }
}

/// Wherever a canonical frame starts, the parser finds exactly it.
pub proof fn lemma_parse_frame(is_list: bool, p: Seq<u8>, rest: Seq<u8>)
    requires
        p.len() < 0x1_0000_0000_0000_0000,
    ensures
        ({
            let f = rlp_frame(is_list, p);
            let s = f + rest;
            &&& spec_parse(s) == Some((is_list, f.len() - p.len(), p.len() as int))
            &&& s.subrange(f.len() - p.len(), f.len() as int) == p
        }),
{
    let f = rlp_frame(is_list, p);
    let s = f + rest;
    if !is_list && p.len() == 1 && p[0] < 0x80 {
        assert(s[0] == p[0]);
        assert(s.subrange(0, 1) =~= p);
    } else {
        let base: nat = if is_list { 0xc0 } else { 0x80 };
        if p.len() <= 55 {
            let c = (base + p.len()) as u8;
            assert(s[0] == c);
            if !is_list {
                assert(0x80 <= c <= 0xb7);
                if p.len() == 1 {
                    assert(s[1] == p[0]);
                    assert(p[0] >= 0x80);
                }
            } else {
                assert(0xc0 <= c <= 0xf7);
            }
            assert(s.subrange(1, 1 + p.len() as int) =~= p);
        } else {
            lemma_pow256_values();
            lemma_be_bytes_len(p.len(), 8);
            lemma_be_bytes_first(p.len());
            lemma_be_bytes_val(p.len());
            let bl = be_bytes(p.len());
            let lol = bl.len() as int;
            let c = (base + 55 + lol) as u8;
            assert(1 <= lol <= 8);
            assert(s[0] == c);
            assert(s[1] == bl[0]);
            assert(s[1] != 0);
            assert(s.subrange(1, 1 + lol) =~= bl);
            assert(be_val(s.subrange(1, 1 + lol)) == p.len());
            if !is_list {
                assert(0xb8 <= c <= 0xbf);
            } else {
                assert(0xf8 <= c);
            }
            assert(s.len() >= 1 + lol + p.len());
            assert(f.len() - p.len() == 1 + lol);
            assert(s.subrange(1 + lol, f.len() as int) =~= p);
        }
    }
}

/// Two equal-length prefixes of the same sequence are equal, as are
/// the remainders.
pub proof fn lemma_concat_parts(a1: Seq<u8>, t1: Seq<u8>, a2: Seq<u8>, t2: Seq<u8>)
    requires
        a1 + t1 == a2 + t2,
        a1.len() == a2.len(),
    ensures
        a1 == a2,
        t1 == t2,
{
    assert((a1 + t1).len() == a1.len() + t1.len());
    assert((a2 + t2).len() == a2.len() + t2.len());
    assert(t1.len() == t2.len());
    assert(a1 =~= a2) by {
        assert(forall|i: int| 0 <= i < a1.len() ==> #[trigger] a1[i] == (a1 + t1)[i]);
        assert(forall|i: int| 0 <= i < a2.len() ==> #[trigger] a2[i] == (a2 + t2)[i]);
    }
    assert(t1 =~= t2) by {
        assert(forall|i: int| 0 <= i < t1.len() ==> #[trigger] t1[i] == (a1 + t1)[i + a1.len()]);
        assert(forall|i: int| 0 <= i < t2.len() ==> #[trigger] t2[i] == (a2 + t2)[i + a2.len()]);
    }
}

/// Frames are unambiguous: a byte sequence begins with at most one
/// canonical frame.
pub proof fn lemma_frame_unique(
    b1: bool, p1: Seq<u8>, r1: Seq<u8>,
    b2: bool, p2: Seq<u8>, r2: Seq<u8>,
)
    requires
        rlp_frame(b1, p1) + r1 == rlp_frame(b2, p2) + r2,
        p1.len() < 0x1_0000_0000_0000_0000,
        p2.len() < 0x1_0000_0000_0000_0000,
    ensures
        b1 == b2,
        p1 == p2,
        r1 == r2,
{
    lemma_parse_frame(b1, p1, r1);
    lemma_parse_frame(b2, p2, r2);
    let f1 = rlp_frame(b1, p1);
    let f2 = rlp_frame(b2, p2);
    let s = f1 + r1;
    assert(f1.len() == f2.len());
    lemma_concat_parts(f1, r1, f2, r2);
    assert(p1 == s.subrange(f1.len() - p1.len(), f1.len() as int));
    assert(p2 == (f2 + r2).subrange(f2.len() - p2.len(), f2.len() as int));
}

// ------------------------------------------------------------------
// Sequences of frames (list payloads)
// ------------------------------------------------------------------

/// One frame of a list payload, at the specification level.
#[verifier::ext_equal]
pub ghost struct ItemV {
    pub is_list: bool,
    pub payload: Seq<u8>,
}

/// Concatenation of the frames of `items`, in order.
pub open spec fn frames_seq(items: Seq<ItemV>) -> Seq<u8>
    decreases items.len(),
{
    if items.len() == 0 {
        Seq::empty()
    } else {
        rlp_frame(items[0].is_list, items[0].payload) + frames_seq(items.drop_first())
    }
}

pub proof fn lemma_frames_seq_push(items: Seq<ItemV>, x: ItemV)
    ensures
        frames_seq(items.push(x)) == frames_seq(items) + rlp_frame(x.is_list, x.payload),
    decreases items.len(),
{
    let f = rlp_frame(x.is_list, x.payload);
    if items.len() == 0 {
        assert(items.push(x).drop_first() =~= Seq::<ItemV>::empty());
        assert(items.push(x)[0] == x);
        assert(frames_seq(items.push(x).drop_first()) =~= Seq::<u8>::empty());
        assert(frames_seq(items.push(x)) =~= f + Seq::<u8>::empty());
        assert(frames_seq(items) =~= Seq::<u8>::empty());
        assert(f + Seq::<u8>::empty() =~= Seq::<u8>::empty() + f);
        assert(frames_seq(items.push(x)) =~= frames_seq(items) + f);
    } else {
        assert(items.push(x).drop_first() =~= items.drop_first().push(x));
        assert(items.push(x)[0] == items[0]);
        lemma_frames_seq_push(items.drop_first(), x);
        let h = rlp_frame(items[0].is_list, items[0].payload);
        assert(frames_seq(items.push(x)) == h + (frames_seq(items.drop_first()) + f));
        assert(h + (frames_seq(items.drop_first()) + f)
            =~= (h + frames_seq(items.drop_first())) + f);
        assert(frames_seq(items.push(x)) =~= frames_seq(items) + f);
    }
}

/// A non-empty remainder of a well-formed frame sequence begins with a
/// canonical frame, so the parser accepts it.
pub proof fn lemma_frames_seq_suffix(done: Seq<ItemV>, tail: Seq<u8>, items: Seq<ItemV>)
    requires
        frames_seq(done) + tail == frames_seq(items),
        tail.len() > 0,
        frames_seq(items).len() < 0x1_0000_0000_0000_0000,
    ensures
        spec_parse(tail) is Some,
    decreases done.len(),
{
    if done.len() == 0 {
        assert(tail =~= frames_seq(items));
        assert(items.len() > 0);
        let p0 = items[0].payload;
        assert(frames_seq(items) == rlp_frame(items[0].is_list, p0) + frames_seq(items.drop_first()));
        assert(p0.len() <= rlp_frame(items[0].is_list, p0).len() <= frames_seq(items).len()) by {
            if p0.len() < 0x1_0000_0000_0000_0000 {
                lemma_frame_len(items[0].is_list, p0);
            } else {
                assert(rlp_frame(items[0].is_list, p0).len() >= p0.len());
            }
        }
        lemma_parse_frame(items[0].is_list, p0, frames_seq(items.drop_first()));
    } else {
        assert(items.len() > 0) by {
            if items.len() == 0 {
                assert(frames_seq(items).len() == 0);
                assert(frames_seq(done).len() + tail.len() == 0);
            }
        }
        let d0 = done[0];
        let i0 = items[0];
        assert(frames_seq(done) == rlp_frame(d0.is_list, d0.payload) + frames_seq(done.drop_first()));
        assert(rlp_frame(d0.is_list, d0.payload) + (frames_seq(done.drop_first()) + tail)
            == rlp_frame(i0.is_list, i0.payload) + frames_seq(items.drop_first())) by {
            assert((rlp_frame(d0.is_list, d0.payload) + frames_seq(done.drop_first())) + tail
                =~= rlp_frame(d0.is_list, d0.payload) + (frames_seq(done.drop_first()) + tail));
        }
        assert(d0.payload.len() < 0x1_0000_0000_0000_0000 && i0.payload.len() < 0x1_0000_0000_0000_0000) by {
            assert(rlp_frame(d0.is_list, d0.payload).len() >= d0.payload.len());
            assert(rlp_frame(i0.is_list, i0.payload).len() >= i0.payload.len());
            assert(frames_seq(items).len() >= rlp_frame(i0.is_list, i0.payload).len());
            assert(frames_seq(done).len() + tail.len() == frames_seq(items).len());
            assert(frames_seq(done).len() >= rlp_frame(d0.is_list, d0.payload).len());
        }
        lemma_frame_unique(
            d0.is_list, d0.payload, frames_seq(done.drop_first()) + tail,
            i0.is_list, i0.payload, frames_seq(items.drop_first()),
        );
        lemma_frames_seq_suffix(done.drop_first(), tail, items.drop_first());
    }
}

/// Each member's payload fits inside the whole frame sequence.
pub proof fn lemma_frames_seq_len_ge(items: Seq<ItemV>, j: int)
    requires
        0 <= j < items.len(),
    ensures
        frames_seq(items).len() >= items[j].payload.len(),
    decreases j,
{
    assert(rlp_frame(items[0].is_list, items[0].payload).len() >= items[0].payload.len());
    if j > 0 {
        lemma_frames_seq_len_ge(items.drop_first(), j - 1);
        assert(items.drop_first()[j - 1] == items[j]);
    }
}

/// A byte sequence is the frame concatenation of at most one item
/// sequence.
pub proof fn lemma_frames_seq_unique(s1: Seq<ItemV>, s2: Seq<ItemV>)
    requires
        frames_seq(s1) == frames_seq(s2),
        frames_seq(s1).len() < 0x1_0000_0000_0000_0000,
    ensures
        s1 == s2,
    decreases s1.len(),
{
    if s1.len() == 0 {
        assert(frames_seq(s2).len() == 0);
        if s2.len() > 0 {
            assert(rlp_frame(s2[0].is_list, s2[0].payload).len() >= 1) by {
                assert(rlp_frame(s2[0].is_list, s2[0].payload).len() >= s2[0].payload.len());
                if s2[0].payload.len() < 0x1_0000_0000_0000_0000 {
                    lemma_frame_len(s2[0].is_list, s2[0].payload);
                }
            }
        }
        assert(s1 =~= s2);
    } else {
        assert(s2.len() > 0) by {
            if s2.len() == 0 {
                assert(frames_seq(s1).len() == 0);
                assert(rlp_frame(s1[0].is_list, s1[0].payload).len() >= s1[0].payload.len());
                if s1[0].payload.len() < 0x1_0000_0000_0000_0000 {
                    lemma_frame_len(s1[0].is_list, s1[0].payload);
                }
            }
        }
        let a = s1[0];
        let b = s2[0];
        assert(a.payload.len() < 0x1_0000_0000_0000_0000 && b.payload.len() < 0x1_0000_0000_0000_0000) by {
            assert(rlp_frame(a.is_list, a.payload).len() >= a.payload.len());
            assert(rlp_frame(b.is_list, b.payload).len() >= b.payload.len());
            assert(frames_seq(s1).len() >= rlp_frame(a.is_list, a.payload).len());
            assert(frames_seq(s2).len() >= rlp_frame(b.is_list, b.payload).len());
        }
        lemma_frame_unique(
            a.is_list, a.payload, frames_seq(s1.drop_first()),
            b.is_list, b.payload, frames_seq(s2.drop_first()),
        );
        lemma_frames_seq_unique(s1.drop_first(), s2.drop_first());
        assert(s1[0] =~= s2[0]);
        assert(s1 =~= s2) by {
            assert(s1.len() == s1.drop_first().len() + 1);
            assert(s2.len() == s2.drop_first().len() + 1);
            assert(forall|i: int| 1 <= i < s1.len() ==> #[trigger] s1[i] == s1.drop_first()[i - 1]);
            assert(forall|i: int| 1 <= i < s2.len() ==> #[trigger] s2[i] == s2.drop_first()[i - 1]);
        }
    }
}

// ------------------------------------------------------------------
// Executable encoding
// ------------------------------------------------------------------

/// Appends a copy of `src` to `dst`.
pub fn append_copy(dst: &mut Vec<u8>, src: &Vec<u8>)
    ensures
        final(dst)@ == old(dst)@ + src@,
{
    let mut i: usize = 0;
    while i < src.len()
        invariant
            i <= src.len(),
            dst@ == old(dst)@ + src@.subrange(0, i as int),
        decreases src.len() - i,
    {
        dst.push(src[i]);
        assert(dst@ =~= old(dst)@ + src@.subrange(0, i + 1));
        i += 1;
    }
    assert(dst@ =~= old(dst)@ + src@);
}

/// Copies `v[a..b]` out into a fresh vector.
pub fn subvec(v: &Vec<u8>, a: usize, b: usize) -> (r: Vec<u8>)
    requires
        a <= b <= v.len(),
    ensures
        r@ == v@.subrange(a as int, b as int),
{
    let mut r: Vec<u8> = Vec::new();
    let mut i: usize = a;
    while i < b
        invariant
            a <= i <= b <= v.len(),
            r@ == v@.subrange(a as int, i as int),
        decreases b - i,
    {
        r.push(v[i]);
        assert(r@ =~= v@.subrange(a as int, i + 1));
        i += 1;
    }
    r
}

/// Encodes a value as its minimal big-endian bytes.
pub fn be_encode(n: u64) -> (r: Vec<u8>)
    ensures
        r@ == be_bytes(n as nat),
    decreases n,
{
    if n == 0 {
        Vec::new()
    } else {
        let mut r = be_encode(n / 256);
        r.push((n % 256) as u8);
        r
    }
}

/// Reads `len` big-endian bytes starting at `start`.
pub fn be_decode(bytes: &Vec<u8>, start: usize, len: usize) -> (r: u64)
    requires
        start + len <= bytes.len(),
        len <= 8,
    ensures
        r as nat == be_val(bytes@.subrange(start as int, (start + len) as int)),
{
    let mut r: u64 = 0;
    let mut i: usize = 0;
    proof {
        assert(bytes@.subrange(start as int, start as int) =~= Seq::<u8>::empty());
    }
    while i < len
        invariant
            i <= len,
            len <= 8,
            start + len <= bytes.len(),
            r as nat == be_val(bytes@.subrange(start as int, (start + i) as int)),
            (r as nat) < pow256(i as nat),
        decreases len - i,
    {
        proof {
            lemma_pow256_mono(i as nat, 7);
            lemma_pow256_values();
            assert(bytes@.subrange(start as int, start + i + 1).drop_last()
                =~= bytes@.subrange(start as int, (start + i) as int));
            assert(bytes@.subrange(start as int, start + i + 1).last() == bytes@[start + i]);
        }
        r = r * 256 + bytes[start + i] as u64;
        i += 1;
    }
    r
}

/// Frames a byte string: emits `rlp_str` of the payload.
pub fn encode_str(p: &Vec<u8>) -> (r: Vec<u8>)
    ensures
        r@ == rlp_str(p@),
{
    if p.len() == 1 && p[0] < 0x80 {
        let mut r: Vec<u8> = Vec::new();
        r.push(p[0]);
        assert(r@ =~= p@);
        r
    } else if p.len() <= 55 {
        let mut r: Vec<u8> = Vec::new();
        r.push(0x80 + p.len() as u8);
        append_copy(&mut r, p);
        assert(r@ =~= len_header(0x80, p@.len()) + p@);
        r
    } else {
        proof {
            lemma_pow256_values();
            lemma_be_bytes_len(p@.len(), 8);
        }
        let mut be = be_encode(p.len() as u64);
        let mut r: Vec<u8> = Vec::new();
        r.push(0x80 + 55 + be.len() as u8);
        let ghost bes = be@;
        r.append(&mut be);
        append_copy(&mut r, p);
        assert(r@ =~= (seq![(0x80 + 55 + bes.len()) as u8] + bes) + p@);
        r
    }
}

/// Frames a list around an already concatenated payload.
pub fn wrap_list(p: &Vec<u8>) -> (r: Vec<u8>)
    ensures
        r@ == rlp_list(p@),
{
    if p.len() <= 55 {
        let mut r: Vec<u8> = Vec::new();
        r.push(0xc0 + p.len() as u8);
        append_copy(&mut r, p);
        assert(r@ =~= len_header(0xc0, p@.len()) + p@);
        r
    } else {
        proof {
            lemma_pow256_values();
            lemma_be_bytes_len(p@.len(), 8);
        }
        let mut be = be_encode(p.len() as u64);
        let mut r: Vec<u8> = Vec::new();
        r.push(0xc0 + 55 + be.len() as u8);
        let ghost bes = be@;
        r.append(&mut be);
        append_copy(&mut r, p);
        assert(r@ =~= (seq![(0xc0 + 55 + bes.len()) as u8] + bes) + p@);
        r
    }
}

// ------------------------------------------------------------------
// Executable parsing
// ------------------------------------------------------------------

/// Reads the frame header at `pos`: kind, header length and payload
/// length. Returns `None` where no canonical frame starts at `pos`.
pub fn parse_header(bytes: &Vec<u8>, pos: usize) -> (r: Option<(bool, usize, usize)>)
    requires
        pos <= bytes.len(),
    ensures
        match r {
            Some(h) => {
                &&& spec_parse(bytes@.skip(pos as int)) == Some((h.0, h.1 as int, h.2 as int))
                &&& pos + h.1 + h.2 <= bytes.len()
                &&& 1 <= h.1 + h.2
            },
            None => spec_parse(bytes@.skip(pos as int)) is None,
        },
{
    let ghost s = bytes@.skip(pos as int);
    if pos == bytes.len() {
        return None;
    }
    let c = bytes[pos];
    assert(s[0] == c);
    if c < 0x80 {
        Some((false, 0, 1))
    } else if c <= 0xb7 {
        let l = (c - 0x80) as usize;
        if bytes.len() - pos - 1 < l {
            return None;
        }
        if l == 1 && bytes[pos + 1] < 0x80 {
            assert(s[1] == bytes@[pos + 1]);
            return None;
        }
        if l == 1 {
            assert(s[1] == bytes@[pos + 1]);
        }
        Some((false, 1, l))
    } else if c <= 0xbf {
        let lol = (c - 0xb7) as usize;
        if bytes.len() - pos - 1 < lol {
            return None;
        }
        assert(s[1] == bytes@[pos + 1]);
        if bytes[pos + 1] == 0 {
            return None;
        }
        let n = be_decode(bytes, pos + 1, lol);
        proof {
            assert(bytes@.subrange(pos + 1, pos + 1 + lol) =~= s.subrange(1, 1 + lol));
        }
        if n <= 55 {
            return None;
        }
        let avail = bytes.len() - pos - 1 - lol;
        if n > avail as u64 {
            return None;
        }
        let pl = n as usize;
        Some((false, 1 + lol, pl))
    } else if c <= 0xf7 {
        let l = (c - 0xc0) as usize;
        if bytes.len() - pos - 1 < l {
            return None;
        }
        Some((true, 1, l))
    } else {
        let lol = (c - 0xf7) as usize;
        if bytes.len() - pos - 1 < lol {
            return None;
        }
        assert(s[1] == bytes@[pos + 1]);
        if bytes[pos + 1] == 0 {
            return None;
        }
        let n = be_decode(bytes, pos + 1, lol);
        proof {
            assert(bytes@.subrange(pos + 1, pos + 1 + lol) =~= s.subrange(1, 1 + lol));
        }
        if n <= 55 {
            return None;
        }
        let avail = bytes.len() - pos - 1 - lol;
        if n > avail as u64 {
            return None;
        }
        let pl = n as usize;
        Some((true, 1 + lol, pl))
    }
}

/// One parsed frame of a list payload: its kind and its payload bytes.
pub struct RawItem {
    pub is_list: bool,
    pub payload: Vec<u8>,
}

impl View for RawItem {
    type V = ItemV;

    open spec fn view(&self) -> ItemV {
        ItemV { is_list: self.is_list, payload: self.payload@ }
    }
}

pub open spec fn items_view(items: Seq<RawItem>) -> Seq<ItemV> {
    items.map_values(|it: RawItem| it@)
}

/// Splits a list payload into its member frames. Returns `None` when
/// the payload is not a concatenation of canonical frames.
pub fn split_items(payload: &Vec<u8>) -> (r: Option<Vec<RawItem>>)
    ensures
        match r {
            Some(items) => payload@ == frames_seq(items_view(items@)),
            None => forall|items: Seq<ItemV>| payload@ != frames_seq(items),
        },
{
    let mut out: Vec<RawItem> = Vec::new();
    let mut pos: usize = 0;
    proof {
        assert(items_view(out@) =~= Seq::<ItemV>::empty());
        assert(payload@.subrange(0, 0) =~= Seq::<u8>::empty());
        assert(payload@.subrange(0, 0) =~= frames_seq(items_view(out@)));
    }
    while pos < payload.len()
        invariant
            pos <= payload.len(),
            payload@.subrange(0, pos as int) == frames_seq(items_view(out@)),
        decreases payload.len() - pos,
    {
        let ghost tail = payload@.skip(pos as int);
        match parse_header(payload, pos) {
            None => {
                proof {
                    assert forall|items: Seq<ItemV>| payload@ != frames_seq(items) by {
                        if payload@ == frames_seq(items) {
                            assert(frames_seq(items_view(out@)) + tail == frames_seq(items)) by {
                                assert(payload@.subrange(0, pos as int) + payload@.skip(pos as int)
                                    =~= payload@);
                            }
                            lemma_frames_seq_suffix(items_view(out@), tail, items);
                        }
                    }
                }
                return None;
            },
            Some((is_list, hl, pl)) => {
                let item_payload = subvec(payload, pos + hl, pos + hl + pl);
                let item = RawItem { is_list, payload: item_payload };
                proof {
                    lemma_parse_sound(tail);
                    assert(tail.subrange(hl as int, hl + pl) =~= payload@.subrange(pos + hl, pos + hl + pl));
                    assert(tail.subrange(0, hl + pl) =~= payload@.subrange(pos as int, pos + hl + pl));
                    assert(payload@.subrange(pos as int, pos + hl + pl) == rlp_frame(is_list, item@.payload));
                    lemma_frames_seq_push(items_view(out@), item@);
                    assert(items_view(out@.push(item)) =~= items_view(out@).push(item@));
                    assert(payload@.subrange(0, pos + hl + pl)
                        =~= payload@.subrange(0, pos as int) + payload@.subrange(pos as int, pos + hl + pl));
                }
                out.push(item);
                pos = pos + hl + pl;
            },
        }
    }
    proof {
        assert(payload@.subrange(0, payload@.len() as int) =~= payload@);
    }
    Some(out)
}

} // verus!
