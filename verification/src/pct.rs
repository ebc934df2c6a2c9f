use vstd::prelude::*;
use crate::bytes::{
    hex_digit, hex_val, is_alpha, is_digit, is_graphic, is_hex_digit, lemma_hex_digit, no_byte,
};

verus! {

broadcast use vstd::seq_lib::group_seq_properties;

// ---------------------------------------------------------------------------
// Component-wise percent-normalization
// ---------------------------------------------------------------------------

/// The URL component a byte sequence belongs to; each keeps a different set
/// of bytes unescaped.
#[derive(Clone, Copy, Debug, PartialEq, Eq, Structural)]
pub enum Comp {
    /// Authority username: delimiters of the authority itself are escaped.
    User,
    /// Authority password: like `User`, but a `:` may stay, since only the
    /// first `:` of the userinfo separates username from password.
    Pass,
    /// One path segment.
    Segment,
    /// The query as a whole; `&` and `=` keep their structural role.
    Query,
    /// The fragment; nothing follows it, so only non-graphic bytes and a
    /// stray `%` are escaped.
    Fragment,
}

/// May byte `b` stand unescaped in component `c`?  Only graphic ASCII other
/// than `%` and the component's delimiters; everything else is written as a
/// percent triplet.
pub open spec fn allowed(c: Comp, b: u8) -> bool {
    is_graphic(b) && b != 0x25 && match c {
        Comp::User => b != 0x3a && b != 0x40 && b != 0x2f && b != 0x3f && b != 0x23,
        Comp::Pass => b != 0x40 && b != 0x2f && b != 0x3f && b != 0x23,
        Comp::Segment => b != 0x2f && b != 0x3f && b != 0x23,
        Comp::Query => b != 0x23,
        Comp::Fragment => true,
    }
}

/// Exec test for `allowed`.
pub fn is_allowed(c: Comp, b: u8) -> (r: bool)
    ensures
        r == allowed(c, b),
{
    if !(0x21 <= b && b <= 0x7e) || b == 0x25 {
        return false;
    }
    match c {
        Comp::User => b != 0x3a && b != 0x40 && b != 0x2f && b != 0x3f && b != 0x23,
        Comp::Pass => b != 0x40 && b != 0x2f && b != 0x3f && b != 0x23,
        Comp::Segment => b != 0x2f && b != 0x3f && b != 0x23,
        Comp::Query => b != 0x23,
        Comp::Fragment => true,
    }
}

/// Exec test for `is_hex_digit`.
pub fn hex_byte(b: u8) -> (r: bool)
    ensures
        r == is_hex_digit(b),
{
    (0x30 <= b && b <= 0x39) || (0x61 <= b && b <= 0x66) || (0x41 <= b && b <= 0x46)
}

/// Exec uppercase hex digit.
pub fn hex_digit_byte(v: u8) -> (r: u8)
    requires
        v < 16,
    ensures
        r == hex_digit(v),
{
    if v < 10 {
        0x30 + v
    } else {
        0x41 + v - 10
    }
}

/// The percent triplet for byte `b`.
pub open spec fn pct_triplet(b: u8) -> Seq<u8> {
    seq![0x25u8, hex_digit(b / 16), hex_digit(b % 16)]
}

/// Percent-normalization: valid triplets are kept as they are, bytes the
/// component allows stay, and every other byte becomes a triplet.
pub open spec fn norm(s: Seq<u8>, c: Comp) -> Seq<u8>
    decreases s.len(),
{
    if s.len() == 0 {
        Seq::empty()
    } else if s[0] == 0x25 && s.len() >= 3 && is_hex_digit(s[1]) && is_hex_digit(s[2]) {
        seq![s[0], s[1], s[2]] + norm(s.skip(3), c)
    } else if allowed(c, s[0]) {
        seq![s[0]] + norm(s.skip(1), c)
    } else {
        pct_triplet(s[0]) + norm(s.skip(1), c)
    }
}

/// A sequence already in normal form for component `c`: every byte is either
/// allowed, or starts a valid percent triplet.
pub open spec fn normal(s: Seq<u8>, c: Comp) -> bool
    decreases s.len(),
{
    if s.len() == 0 {
        true
    } else if s[0] == 0x25 {
        s.len() >= 3 && is_hex_digit(s[1]) && is_hex_digit(s[2]) && normal(s.skip(3), c)
    } else {
        allowed(c, s[0]) && normal(s.skip(1), c)
    }
}

/// Normalization always yields a normal sequence.
pub proof fn lemma_norm_normal(s: Seq<u8>, c: Comp)
    ensures
        normal(norm(s, c), c),
    decreases s.len(),
{
    if s.len() == 0 {
    } else if s[0] == 0x25 && s.len() >= 3 && is_hex_digit(s[1]) && is_hex_digit(s[2]) {
        lemma_norm_normal(s.skip(3), c);
        let r = norm(s, c);
        assert(r.skip(3) =~= norm(s.skip(3), c));
    } else if allowed(c, s[0]) {
        lemma_norm_normal(s.skip(1), c);
        let r = norm(s, c);
        assert(r.skip(1) =~= norm(s.skip(1), c));
    } else {
        lemma_norm_normal(s.skip(1), c);
        let b = s[0];
        assert(b / 16 < 16 && b % 16 < 16);
        lemma_hex_digit((b / 16) as u8);
        lemma_hex_digit((b % 16) as u8);
        let r = norm(s, c);
        assert(r.skip(3) =~= norm(s.skip(1), c));
    }
}

/// A normal sequence is unchanged by normalization.
pub proof fn lemma_normal_id(s: Seq<u8>, c: Comp)
    requires
        normal(s, c),
    ensures
        norm(s, c) == s,
    decreases s.len(),
{
    if s.len() == 0 {
        assert(norm(s, c) =~= s);
    } else if s[0] == 0x25 {
        lemma_normal_id(s.skip(3), c);
        assert(norm(s, c) =~= s);
    } else {
        lemma_normal_id(s.skip(1), c);
        assert(norm(s, c) =~= s);
    }
}

/// Every byte of a normal sequence is either allowed or a `%`; in
/// particular the component's delimiters never appear.
pub proof fn lemma_normal_bytes(s: Seq<u8>, c: Comp)
    requires
        normal(s, c),
    ensures
        forall|i: int| 0 <= i < s.len() ==> allowed(c, #[trigger] s[i]) || s[i] == 0x25,
    decreases s.len(),
{
    if s.len() == 0 {
    } else if s[0] == 0x25 {
        lemma_normal_bytes(s.skip(3), c);
        assert forall|i: int| 0 <= i < s.len() implies allowed(c, #[trigger] s[i]) || s[i]
            == 0x25 by {
            if i >= 3 {
                assert(s.skip(3)[i - 3] == s[i]);
            }
        }
    } else {
        lemma_normal_bytes(s.skip(1), c);
        assert forall|i: int| 0 <= i < s.len() implies allowed(c, #[trigger] s[i]) || s[i]
            == 0x25 by {
            if i >= 1 {
                assert(s.skip(1)[i - 1] == s[i]);
            }
        }
    }
}

/// Normalize `v` for component `c`.
#[verifier::rlimit(50)]
pub fn normalize(v: &Vec<u8>, c: Comp) -> (r: Vec<u8>)
    ensures
        r@ == norm(v@, c),
{
    let mut r: Vec<u8> = Vec::new();
    let mut i: usize = 0;
    while i < v.len()
        invariant
            0 <= i <= v@.len(),
            norm(v@, c) == r@ + norm(v@.skip(i as int), c),
        decreases v@.len() - i,
    {
        let b = v[i];
        proof {
            assert(v@.skip(i as int)[0] == v@[i as int]);
        }
        if b == 0x25 && v.len() - i >= 3 && hex_byte(v[i + 1]) && hex_byte(v[i + 2]) {
            let ghost r_snap = r@;
            r.push(b);
            r.push(v[i + 1]);
            r.push(v[i + 2]);
            proof {
                assert(v@.skip(i as int)[1] == v@[i + 1int]);
                assert(v@.skip(i as int)[2] == v@[i + 2int]);
                assert(v@.skip(i as int).skip(3) =~= v@.skip(i + 3int));
                assert(r@ =~= r_snap + seq![v@[i as int], v@[i + 1int], v@[i + 2int]]);
                assert(norm(v@, c) == r@ + norm(v@.skip(i + 3int), c));
            }
            i += 3;
        } else if is_allowed(c, b) {
            let ghost r_snap = r@;
            r.push(b);
            proof {
                assert(v@.skip(i as int).skip(1) =~= v@.skip(i + 1int));
                assert(r@ =~= r_snap + seq![v@[i as int]]);
                assert(norm(v@, c) == r@ + norm(v@.skip(i + 1int), c));
            }
            i += 1;
        } else {
            let ghost r_snap = r@;
            r.push(0x25);
            r.push(hex_digit_byte(b / 16));
            r.push(hex_digit_byte(b % 16));
            proof {
                assert(v@.skip(i as int).skip(1) =~= v@.skip(i + 1int));
                assert(r@ =~= r_snap + pct_triplet(v@[i as int]));
                assert(norm(v@, c) == r@ + norm(v@.skip(i + 1int), c));
            }
            i += 1;
        }
    }
    proof {
        assert(v@.skip(v@.len() as int) =~= Seq::<u8>::empty());
        assert(r@ + norm(v@.skip(v@.len() as int), c) =~= r@);
    }
    r
}

// ---------------------------------------------------------------------------
// Form encoding for query parameters
// ---------------------------------------------------------------------------

/// Byte kept verbatim by form encoding.
pub open spec fn is_unreserved(b: u8) -> bool {
    is_alpha(b) || is_digit(b) || b == 0x2d || b == 0x2e || b == 0x5f || b == 0x7e
}

/// Form encoding of a single byte: unreserved bytes stay, a space becomes
/// `+`, everything else becomes a percent triplet.
pub open spec fn fenc_byte(b: u8) -> Seq<u8> {
    if is_unreserved(b) {
        seq![b]
    } else if b == 0x20 {
        seq![0x2bu8]
    } else {
        pct_triplet(b)
    }
}

/// Form encoding of a byte sequence.
pub open spec fn fenc(s: Seq<u8>) -> Seq<u8>
    decreases s.len(),
{
    if s.len() == 0 {
        Seq::empty()
    } else {
        fenc_byte(s[0]) + fenc(s.skip(1))
    }
}

/// Form decoding: percent triplets become their byte, `+` becomes a space,
/// everything else stays.
pub open spec fn pdecode(s: Seq<u8>) -> Seq<u8>
    decreases s.len(),
{
    if s.len() == 0 {
        Seq::empty()
    } else if s[0] == 0x25 && s.len() >= 3 && is_hex_digit(s[1]) && is_hex_digit(s[2]) {
        seq![(hex_val(s[1]) * 16 + hex_val(s[2])) as u8] + pdecode(s.skip(3))
    } else if s[0] == 0x2b {
        seq![0x20u8] + pdecode(s.skip(1))
    } else {
        seq![s[0]] + pdecode(s.skip(1))
    }
}

/// Form decoding undoes form encoding.
pub proof fn lemma_pdecode_fenc(s: Seq<u8>)
    ensures
        pdecode(fenc(s)) == s,
    decreases s.len(),
{
    if s.len() == 0 {
        assert(pdecode(fenc(s)) =~= s);
    } else {
        lemma_pdecode_fenc(s.skip(1));
        let b = s[0];
        let e = fenc(s);
        if is_unreserved(b) {
            assert(e.skip(1) =~= fenc(s.skip(1)));
            assert(pdecode(e) =~= seq![b] + pdecode(fenc(s.skip(1))));
            assert(seq![b] + s.skip(1) =~= s);
        } else if b == 0x20 {
            assert(e.skip(1) =~= fenc(s.skip(1)));
            assert(pdecode(e) =~= seq![0x20u8] + pdecode(fenc(s.skip(1))));
            assert(seq![0x20u8] + s.skip(1) =~= s);
        } else {
            assert(b / 16 < 16 && b % 16 < 16);
            lemma_hex_digit((b / 16) as u8);
            lemma_hex_digit((b % 16) as u8);
            vstd::arithmetic::div_mod::lemma_fundamental_div_mod(b as int, 16);
            assert(e[0] == 0x25);
            assert(e.skip(3) =~= fenc(s.skip(1)));
            assert(hex_val(e[1]) * 16 + hex_val(e[2]) == b);
            assert(pdecode(e) =~= seq![b] + pdecode(fenc(s.skip(1))));
            assert(seq![b] + s.skip(1) =~= s);
        }
    }
}

/// Form encoding never yields the query delimiters `&` and `=`, and it is
/// empty exactly for empty input.
pub proof fn lemma_fenc_bytes(s: Seq<u8>)
    ensures
        no_byte(fenc(s), 0x26),
        no_byte(fenc(s), 0x3d),
        fenc(s).len() == 0 <==> s.len() == 0,
    decreases s.len(),
{
    if s.len() > 0 {
        lemma_fenc_bytes(s.skip(1));
        let e = fenc(s);
        let h = fenc_byte(s[0]);
        assert forall|i: int| 0 <= i < e.len() implies e[i] != 0x26 && e[i] != 0x3d by {
            if i < h.len() {
                assert(e[i] == h[i]);
            } else {
                assert(e[i] == fenc(s.skip(1))[i - h.len()]);
            }
        }
    }
}

/// Form-encode `v`.
#[verifier::rlimit(50)]
pub fn fenc_vec(v: &Vec<u8>) -> (r: Vec<u8>)
    ensures
        r@ == fenc(v@),
{
    let mut r: Vec<u8> = Vec::new();
    let mut i: usize = 0;
    while i < v.len()
        invariant
            0 <= i <= v@.len(),
            fenc(v@) == r@ + fenc(v@.skip(i as int)),
        decreases v@.len() - i,
    {
        let b = v[i];
        let ghost r_snap = r@;
        proof {
            assert(v@.skip(i as int)[0] == v@[i as int]);
            assert(v@.skip(i as int).skip(1) =~= v@.skip(i + 1int));
        }
        if ((0x41 <= b) && (b <= 0x5a)) || ((0x61 <= b) && (b <= 0x7a)) || ((0x30 <= b) && (b
            <= 0x39)) || b == 0x2d || b == 0x2e || b == 0x5f || b == 0x7e {
            r.push(b);
            proof {
                assert(r@ =~= r_snap + fenc_byte(v@[i as int]));
            }
        } else if b == 0x20 {
            r.push(0x2b);
            proof {
                assert(r@ =~= r_snap + fenc_byte(v@[i as int]));
            }
        } else {
            r.push(0x25);
            r.push(hex_digit_byte(b / 16));
            r.push(hex_digit_byte(b % 16));
            proof {
                assert(r@ =~= r_snap + fenc_byte(v@[i as int]));
            }
        }
        proof {
            assert(fenc(v@) == r@ + fenc(v@.skip(i + 1int)));
        }
        i += 1;
    }
    proof {
        assert(v@.skip(v@.len() as int) =~= Seq::<u8>::empty());
        assert(r@ + fenc(v@.skip(v@.len() as int)) =~= r@);
    }
    r
}

/// Form-decode `v`.
#[verifier::rlimit(50)]
pub fn pdecode_vec(v: &Vec<u8>) -> (r: Vec<u8>)
    ensures
        r@ == pdecode(v@),
{
    let mut r: Vec<u8> = Vec::new();
    let mut i: usize = 0;
    while i < v.len()
        invariant
            0 <= i <= v@.len(),
            pdecode(v@) == r@ + pdecode(v@.skip(i as int)),
        decreases v@.len() - i,
    {
        let b = v[i];
        proof {
            assert(v@.skip(i as int)[0] == v@[i as int]);
        }
        if b == 0x25 && v.len() - i >= 3 && hex_byte(v[i + 1]) && hex_byte(v[i + 2]) {
            let ghost r_snap = r@;
            let h1 = v[i + 1];
            let h2 = v[i + 2];
            let x1 = hex_val_byte(h1);
            let x2 = hex_val_byte(h2);
            r.push(x1 * 16 + x2);
            proof {
                assert(v@.skip(i as int)[1] == v@[i + 1int]);
                assert(v@.skip(i as int)[2] == v@[i + 2int]);
                assert(v@.skip(i as int).skip(3) =~= v@.skip(i + 3int));
                assert(r@ =~= r_snap + seq![(hex_val(v@[i + 1int]) * 16 + hex_val(
                    v@[i + 2int],
                )) as u8]);
                assert(pdecode(v@) == r@ + pdecode(v@.skip(i + 3int)));
            }
            i += 3;
        } else {
            let ghost r_snap = r@;
            if b == 0x2b {
                r.push(0x20);
            } else {
                r.push(b);
            }
            proof {
                assert(v@.skip(i as int).skip(1) =~= v@.skip(i + 1int));
                if b == 0x2b {
                    assert(r@ =~= r_snap + seq![0x20u8]);
                } else {
                    assert(r@ =~= r_snap + seq![v@[i as int]]);
                }
                assert(pdecode(v@) == r@ + pdecode(v@.skip(i + 1int)));
            }
            i += 1;
        }
    }
    proof {
        assert(v@.skip(v@.len() as int) =~= Seq::<u8>::empty());
        assert(r@ + pdecode(v@.skip(v@.len() as int)) =~= r@);
    }
    r
}

/// Exec hex digit value.
pub fn hex_val_byte(b: u8) -> (r: u8)
    ensures
        r == hex_val(b),
        r < 16 || !is_hex_digit(b),
{
    if (0x30 <= b) && (b <= 0x39) {
        b - 0x30
    } else if (0x61 <= b) && (b <= 0x66) {
        b - 0x61 + 10
    } else if (0x41 <= b) && (b <= 0x46) {
        b - 0x41 + 10
    } else {
        0
    }
}

} // verus!
