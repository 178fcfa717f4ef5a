//! Helpers on byte strings: comparison, prefix and suffix tests, joining.

use vstd::prelude::*;

verus! {

/// `p` is a prefix of `a`.
pub open spec fn has_prefix(a: Seq<u8>, p: Seq<u8>) -> bool {
    p.len() <= a.len() && a.subrange(0, p.len() as int) == p
}

/// `s` is a suffix of `a`.
pub open spec fn has_suffix(a: Seq<u8>, s: Seq<u8>) -> bool {
    s.len() <= a.len() && a.subrange(a.len() - s.len(), a.len() as int) == s
}

/// Byte-string equality.
pub fn bytes_eq(a: &Vec<u8>, b: &Vec<u8>) -> (r: bool)
    ensures
        r == (a@ == b@),
{
    if a.len() != b.len() {
        proof {
            assert(a@ != b@) by {
                if a@ == b@ {
                    assert(a@.len() == b@.len());
                }
            }
        }
        return false;
    }
    let mut i: usize = 0;
    while i < a.len()
        invariant
            a@.len() == b@.len(),
            i <= a@.len(),
            forall|j: int| 0 <= j < i ==> a@[j] == b@[j],
        decreases a@.len() - i,
    {
        if a[i] != b[i] {
            return false;
        }
        i = i + 1;
    }
    proof {
        assert(a@ =~= b@);
    }
    true
}

/// Does `a` start with `p`?
pub fn starts_with(a: &Vec<u8>, p: &Vec<u8>) -> (r: bool)
    ensures
        r == has_prefix(a@, p@),
{
    if p.len() > a.len() {
        return false;
    }
    let mut i: usize = 0;
    while i < p.len()
        invariant
            p@.len() <= a@.len(),
            i <= p@.len(),
            forall|j: int| 0 <= j < i ==> a@[j] == p@[j],
        decreases p@.len() - i,
    {
        if a[i] != p[i] {
            proof {
                assert(!has_prefix(a@, p@)) by {
                    if has_prefix(a@, p@) {
                        assert(a@.subrange(0, p@.len() as int)[i as int] == p@[i as int]);
                    }
                }
            }
            return false;
        }
        i = i + 1;
    }
    proof {
        assert(a@.subrange(0, p@.len() as int) =~= p@);
    }
    true
}

/// Does `a` end with `s`?
pub fn ends_with(a: &Vec<u8>, s: &Vec<u8>) -> (r: bool)
    ensures
        r == has_suffix(a@, s@),
{
    if s.len() > a.len() {
        return false;
    }
    let off: usize = a.len() - s.len();
    let mut i: usize = 0;
    while i < s.len()
        invariant
            s@.len() <= a@.len(),
            a@.len() <= usize::MAX,
            off == a@.len() - s@.len(),
            i <= s@.len(),
            forall|j: int| 0 <= j < i ==> a@[off + j] == s@[j],
        decreases s@.len() - i,
    {
        if a[off + i] != s[i] {
            proof {
                assert(!has_suffix(a@, s@)) by {
                    if has_suffix(a@, s@) {
                        assert(a@.subrange(a@.len() - s@.len(), a@.len() as int)[i as int]
                            == s@[i as int]);
                    }
                }
            }
            return false;
        }
        i = i + 1;
    }
    proof {
        assert(a@.subrange(a@.len() - s@.len(), a@.len() as int) =~= s@);
    }
    true
}

/// A copy of `a[from..to]`.
pub fn subvec(a: &Vec<u8>, from: usize, to: usize) -> (r: Vec<u8>)
    requires
        from <= to <= a@.len(),
    ensures
        r@ == a@.subrange(from as int, to as int),
{
    let mut r: Vec<u8> = Vec::new();
    let mut i: usize = from;
    while i < to
        invariant
            from <= i <= to <= a@.len(),
            r@.len() == i - from,
            forall|j: int| 0 <= j < r@.len() ==> r@[j] == a@[from + j],
        decreases to - i,
    {
        r.push(a[i]);
        i = i + 1;
    }
    proof {
        assert(r@ =~= a@.subrange(from as int, to as int));
    }
    r
}

/// The lower-case hexadecimal digit of a value below sixteen.
pub open spec fn hex_digit(n: u8) -> u8 {
    if n < 10 {
        (48 + n) as u8
    } else {
        (87 + n) as u8
    }
}

/// The lower-case hexadecimal text of a byte string, two digits a byte,
/// high nibble first.
pub open spec fn hex_of(b: Seq<u8>) -> Seq<u8>
    decreases b.len(),
{
    if b.len() == 0 {
        Seq::empty()
    } else {
        seq![hex_digit(b[0] / 16), hex_digit(b[0] % 16)] + hex_of(b.drop_first())
    }
}

/// Encoding one more byte appends its two digits.
proof fn lemma_hex_push(b: Seq<u8>, x: u8)
    ensures
        hex_of(b.push(x)) == hex_of(b) + seq![hex_digit(x / 16), hex_digit(x % 16)],
    decreases b.len(),
{
    if b.len() == 0 {
        assert(b.push(x)[0] == x);
        assert(b.push(x).drop_first() =~= Seq::<u8>::empty());
        assert(hex_of(Seq::<u8>::empty()) =~= Seq::<u8>::empty());
        assert(hex_of(b.push(x)) == seq![hex_digit(x / 16), hex_digit(x % 16)] + hex_of(
            b.push(x).drop_first(),
        ));
        assert(hex_of(b.push(x)) =~= hex_of(b) + seq![hex_digit(x / 16), hex_digit(x % 16)]);
    } else {
        assert(b.push(x)[0] == b[0]);
        assert(b.push(x).drop_first() =~= b.drop_first().push(x));
        lemma_hex_push(b.drop_first(), x);
        assert(hex_of(b.push(x)) == seq![hex_digit(b[0] / 16), hex_digit(b[0] % 16)] + (hex_of(
            b.drop_first(),
        ) + seq![hex_digit(x / 16), hex_digit(x % 16)]));
        assert(seq![hex_digit(b[0] / 16), hex_digit(b[0] % 16)] + (hex_of(b.drop_first())
            + seq![hex_digit(x / 16), hex_digit(x % 16)]) =~= hex_of(b) + seq![
            hex_digit(x / 16),
            hex_digit(x % 16),
        ]);
    }
}

/// The hexadecimal text of a byte string.
pub fn to_hex(v: &Vec<u8>) -> (r: Vec<u8>)
    ensures
        r@ == hex_of(v@),
{
    let mut r: Vec<u8> = Vec::new();
    let mut i: usize = 0;
    proof {
        assert(v@.take(0) =~= Seq::<u8>::empty());
        assert(r@ =~= hex_of(v@.take(0)));
    }
    while i < v.len()
        invariant
            i <= v@.len(),
            r@ == hex_of(v@.take(i as int)),
        decreases v@.len() - i,
    {
        let x = v[i];
        let hi = x / 16;
        let lo = x % 16;
        let d1 = if hi < 10 {
            48 + hi
        } else {
            87 + hi
        };
        let d2 = if lo < 10 {
            48 + lo
        } else {
            87 + lo
        };
        let ghost before = r@;
        r.push(d1);
        r.push(d2);
        proof {
            assert(d1 == hex_digit(x / 16));
            assert(d2 == hex_digit(x % 16));
            assert(v@.take(i as int + 1) =~= v@.take(i as int).push(v@[i as int]));
            lemma_hex_push(v@.take(i as int), v@[i as int]);
            assert(r@ =~= before + seq![hex_digit(x / 16), hex_digit(x % 16)]);
        }
        i = i + 1;
    }
    proof {
        assert(v@.take(v@.len() as int) =~= v@);
    }
    r
}

/// `a` followed by `b`, as a fresh byte string.
pub fn join(a: &Vec<u8>, b: &Vec<u8>) -> (r: Vec<u8>)
    ensures
        r@ == a@ + b@,
{
    let mut r = a.clone();
    proof {
        assert(r@ =~= a@);
    }
    r.extend_from_slice(b.as_slice());
    proof {
        assert(r@ =~= a@ + b@);
    }
    r
}

} // verus!
