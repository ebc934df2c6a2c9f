use vstd::prelude::*;

verus! {

broadcast use vstd::seq_lib::group_seq_properties;

// ---------------------------------------------------------------------------
// Byte classes
// ---------------------------------------------------------------------------

/// ASCII lowercase letter.
pub open spec fn is_lower_alpha(b: u8) -> bool {
    ('a' as u8) <= b && b <= ('z' as u8)
}

/// ASCII uppercase letter.
pub open spec fn is_upper_alpha(b: u8) -> bool {
    ('A' as u8) <= b && b <= ('Z' as u8)
}

/// ASCII letter.
pub open spec fn is_alpha(b: u8) -> bool {
    is_lower_alpha(b) || is_upper_alpha(b)
}

/// ASCII decimal digit.
pub open spec fn is_digit(b: u8) -> bool {
    ('0' as u8) <= b && b <= ('9' as u8)
}

/// ASCII hexadecimal digit, either case.
pub open spec fn is_hex_digit(b: u8) -> bool {
    is_digit(b) || (('a' as u8) <= b && b <= ('f' as u8)) || (('A' as u8) <= b && b <= ('F' as u8))
}

/// Printable ASCII byte other than space.
pub open spec fn is_graphic(b: u8) -> bool {
    0x21 <= b && b <= 0x7e
}

/// ASCII whitespace: space, tab, line feed, carriage return.
pub open spec fn is_space(b: u8) -> bool {
    b == 0x20 || b == 0x09 || b == 0x0a || b == 0x0d
}

/// Lowercase an ASCII letter; every other byte is unchanged.
pub open spec fn to_lower(b: u8) -> u8 {
    if is_upper_alpha(b) {
        (b + 32) as u8
    } else {
        b
    }
}

/// Lowercase one byte.
pub fn lower_byte(b: u8) -> (r: u8)
    ensures
        r == to_lower(b),
{
    if (('A' as u8) <= b) && (b <= ('Z' as u8)) {
        b + 32
    } else {
        b
    }
}

/// Lowercase applied to every byte.
pub open spec fn lower(s: Seq<u8>) -> Seq<u8> {
    s.map_values(|b: u8| to_lower(b))
}

/// Value of a hexadecimal digit byte (meaningful when `is_hex_digit`).
pub open spec fn hex_val(b: u8) -> u8 {
    if is_digit(b) {
        (b - 0x30) as u8
    } else if ('a' as u8) <= b && b <= ('f' as u8) {
        (b - 0x61 + 10) as u8
    } else if ('A' as u8) <= b && b <= ('F' as u8) {
        (b - 0x41 + 10) as u8
    } else {
        0
    }
}

/// Uppercase hexadecimal digit byte for a value below 16.
pub open spec fn hex_digit(v: u8) -> u8 {
    if v < 10 {
        (0x30 + v) as u8
    } else {
        (0x41 + v - 10) as u8
    }
}

pub proof fn lemma_hex_digit(v: u8)
    requires
        v < 16,
    ensures
        is_hex_digit(hex_digit(v)),
        hex_val(hex_digit(v)) == v,
        is_graphic(hex_digit(v)),
        is_digit(hex_digit(v)) || is_upper_alpha(hex_digit(v)),
{
}

/// No byte of `s` equals `b`.
pub open spec fn no_byte(s: Seq<u8>, b: u8) -> bool {
    forall|i: int| 0 <= i < s.len() ==> s[i] != b
}

// ---------------------------------------------------------------------------
// Finding a byte
// ---------------------------------------------------------------------------

/// Index of the first occurrence of `b` in `s`, if any.
pub open spec fn find(s: Seq<u8>, b: u8) -> Option<int>
    decreases s.len(),
{
    if s.len() == 0 {
        None
    } else if s[0] == b {
        Some(0int)
    } else {
        match find(s.skip(1), b) {
            None => None,
            Some(i) => Some(i + 1),
        }
    }
}

pub proof fn lemma_find(s: Seq<u8>, b: u8)
    ensures
        match find(s, b) {
            None => no_byte(s, b),
            Some(i) => 0 <= i < s.len() && s[i] == b && (forall|j: int| 0 <= j < i ==> s[j] != b),
        },
    decreases s.len(),
{
    if s.len() == 0 {
    } else if s[0] == b {
    } else {
        lemma_find(s.skip(1), b);
        assert forall|j: int| 0 <= j < s.skip(1).len() implies s.skip(1)[j] == s[j + 1] by {}
    }
}

pub proof fn lemma_find_at(s: Seq<u8>, b: u8, i: int)
    requires
        0 <= i < s.len(),
        s[i] == b,
        forall|j: int| 0 <= j < i ==> s[j] != b,
    ensures
        find(s, b) == Some(i),
    decreases s.len(),
{
    if i == 0 {
    } else {
        lemma_find_at(s.skip(1), b, i - 1);
    }
}

pub proof fn lemma_find_none(s: Seq<u8>, b: u8)
    requires
        no_byte(s, b),
    ensures
        find(s, b) == None::<int>,
    decreases s.len(),
{
    if s.len() > 0 {
        assert forall|j: int| 0 <= j < s.skip(1).len() implies s.skip(1)[j] != b by {
            assert(s.skip(1)[j] == s[j + 1]);
        }
        lemma_find_none(s.skip(1), b);
    }
}

/// First occurrence of `b` in `v`.
pub fn find_byte(v: &Vec<u8>, b: u8) -> (r: Option<usize>)
    ensures
        match r {
            Some(u) => find(v@, b) == Some(u as int),
            None => find(v@, b) == None::<int>,
        },
{
    let mut i: usize = 0;
    while i < v.len()
        invariant
            0 <= i <= v.len(),
            forall|j: int| 0 <= j < i ==> v@[j] != b,
        decreases v.len() - i,
    {
        if v[i] == b {
            proof {
                lemma_find_at(v@, b, i as int);
            }
            return Some(i);
        }
        i += 1;
    }
    proof {
        lemma_find_none(v@, b);
    }
    None
}

// ---------------------------------------------------------------------------
// Vector building blocks
// ---------------------------------------------------------------------------

/// Copy of `v[i..j]`.
pub fn subvec(v: &Vec<u8>, i: usize, j: usize) -> (r: Vec<u8>)
    requires
        i <= j <= v@.len(),
    ensures
        r@ == v@.subrange(i as int, j as int),
{
    let mut r: Vec<u8> = Vec::new();
    let mut k: usize = i;
    while k < j
        invariant
            i <= k <= j <= v@.len(),
            r@ == v@.subrange(i as int, k as int),
        decreases j - k,
    {
        r.push(v[k]);
        proof {
            assert(v@.subrange(i as int, k + 1int) =~= v@.subrange(i as int, k as int).push(
                v@[k as int],
            ));
        }
        k += 1;
    }
    r
}

/// Append every byte of `v` to `out`.
pub fn push_all(out: &mut Vec<u8>, v: &Vec<u8>)
    ensures
        final(out)@ == old(out)@ + v@,
{
    let mut k: usize = 0;
    while k < v.len()
        invariant
            0 <= k <= v@.len(),
            out@ == old(out)@ + v@.subrange(0, k as int),
        decreases v.len() - k,
    {
        out.push(v[k]);
        proof {
            assert(old(out)@ + v@.subrange(0, k + 1int) =~= (old(out)@ + v@.subrange(
                0,
                k as int,
            )).push(v@[k as int]));
        }
        k += 1;
    }
    proof {
        assert(v@.subrange(0, v@.len() as int) =~= v@);
    }
}

// ---------------------------------------------------------------------------
// Splitting and joining on a separator
// ---------------------------------------------------------------------------

/// Split `s` on every occurrence of `sep`; the result always has at least
/// one part, and joining it back with `sep` restores `s`.
pub open spec fn split(s: Seq<u8>, sep: u8) -> Seq<Seq<u8>>
    decreases s.len(),
{
    match find(s, sep) {
        None => seq![s],
        Some(i) => if 0 <= i < s.len() {
            seq![s.take(i)] + split(s.skip(i + 1), sep)
        } else {
            seq![s]
        },
    }
}

/// Join the parts with `sep` between each adjacent pair.
pub open spec fn join(parts: Seq<Seq<u8>>, sep: u8) -> Seq<u8>
    decreases parts.len(),
{
    if parts.len() == 0 {
        Seq::empty()
    } else if parts.len() == 1 {
        parts[0]
    } else {
        parts[0] + seq![sep] + join(parts.skip(1), sep)
    }
}

/// Splitting a joined sequence restores the parts, as long as no part
/// contains the separator.
pub proof fn lemma_split_join(parts: Seq<Seq<u8>>, sep: u8)
    requires
        parts.len() >= 1,
        forall|i: int| 0 <= i < parts.len() ==> no_byte(#[trigger] parts[i], sep),
    ensures
        split(join(parts, sep), sep) == parts,
    decreases parts.len(),
{
    let s = join(parts, sep);
    if parts.len() == 1 {
        lemma_find_none(parts[0], sep);
        assert(split(s, sep) =~~= parts);
    } else {
        let h = parts[0];
        let rest = join(parts.skip(1), sep);
        assert(s == h + seq![sep] + rest);
        assert(s[h.len() as int] == sep);
        assert forall|j: int| 0 <= j < h.len() implies s[j] != sep by {
            assert(s[j] == h[j]);
        }
        lemma_find_at(s, sep, h.len() as int);
        assert(s.take(h.len() as int) =~= h);
        assert(s.skip(h.len() as int + 1) =~= rest);
        assert forall|i: int| 0 <= i < parts.skip(1).len() implies no_byte(
            #[trigger] parts.skip(1)[i],
            sep,
        ) by {
            assert(parts.skip(1)[i] == parts[i + 1]);
        }
        lemma_split_join(parts.skip(1), sep);
        assert(split(s, sep) =~~= seq![h] + split(rest, sep));
        assert(seq![h] + parts.skip(1) =~~= parts);
    }
}

/// Views of a sequence of byte vectors.
pub open spec fn views_of(s: Seq<Vec<u8>>) -> Seq<Seq<u8>> {
    Seq::new(s.len(), |i: int| s[i]@)
}

/// Split `v` on `sep`.
pub fn split_vec(v: &Vec<u8>, sep: u8) -> (r: Vec<Vec<u8>>)
    ensures
        views_of(r@) == split(v@, sep),
    decreases v@.len(),
{
    match find_byte(v, sep) {
        None => {
            let part = subvec(v, 0, v.len());
            let mut r: Vec<Vec<u8>> = Vec::new();
            r.push(part);
            proof {
                assert(v@.subrange(0, v@.len() as int) =~= v@);
                assert(views_of(r@) =~= seq![v@]);
            }
            r
        },
        Some(i) => {
            proof {
                lemma_find(v@, sep);
                assert((i as int) < v@.len());
            }
            let n = v.len();
            let head = subvec(v, 0, i);
            let tail = subvec(v, i + 1, n);
            let mut r = split_vec(&tail, sep);
            let ghost r_snap = r@;
            r.insert(0, head);
            proof {
                assert forall|t: int| 0 <= t < views_of(r@).len() implies views_of(r@)[t] == (
                seq![v@.take(i as int)] + split(v@.skip(i + 1), sep))[t] by {
                    assert(v@.take(i as int) == v@.subrange(0, i as int));
                    assert(v@.skip(i + 1) =~= v@.subrange(i + 1, v@.len() as int));
                    if t == 0 {
                        assert(r@[0] == head);
                    } else {
                        assert(r@[t] == r_snap[t - 1]);
                        assert(views_of(r_snap)[t - 1] == r_snap[t - 1]@);
                    }
                }
                assert(v@.skip(i + 1) =~= v@.subrange(i + 1, v@.len() as int));
                assert(views_of(r@) =~= seq![v@.take(i as int)] + split(v@.skip(i + 1), sep));
            }
            r
        },
    }
}

/// Join the parts of `parts` from index `i` on.
fn join_from(parts: &Vec<Vec<u8>>, sep: u8, i: usize) -> (r: Vec<u8>)
    requires
        i <= parts@.len(),
    ensures
        r@ == join(views_of(parts@).skip(i as int), sep),
    decreases parts@.len() - i,
{
    if i == parts.len() {
        proof {
            assert(views_of(parts@).skip(i as int) =~= Seq::<Seq<u8>>::empty());
        }
        Vec::new()
    } else if i + 1 == parts.len() {
        let r = subvec(&parts[i], 0, parts[i].len());
        proof {
            assert(parts@[i as int]@.subrange(0, parts@[i as int]@.len() as int)
                =~= parts@[i as int]@);
            assert(views_of(parts@).skip(i as int).len() == 1);
            assert(views_of(parts@).skip(i as int)[0] == parts@[i as int]@);
        }
        r
    } else {
        let mut r = subvec(&parts[i], 0, parts[i].len());
        proof {
            assert(parts@[i as int]@.subrange(0, parts@[i as int]@.len() as int)
                =~= parts@[i as int]@);
        }
        r.push(sep);
        let rest = join_from(parts, sep, i + 1);
        push_all(&mut r, &rest);
        proof {
            let dv = views_of(parts@);
            assert(dv.skip(i as int)[0] == parts@[i as int]@);
            assert(dv.skip(i as int).skip(1) =~= dv.skip(i + 1));
            assert(r@ =~= dv.skip(i as int)[0] + seq![sep] + join(dv.skip(i + 1), sep));
        }
        r
    }
}

/// Join `parts` with `sep`.
pub fn join_vec(parts: &Vec<Vec<u8>>, sep: u8) -> (r: Vec<u8>)
    ensures
        r@ == join(views_of(parts@), sep),
{
    let r = join_from(parts, sep, 0);
    proof {
        assert(views_of(parts@).skip(0) =~= views_of(parts@));
    }
    r
}


// ---------------------------------------------------------------------------
// Lowercasing a sequence
// ---------------------------------------------------------------------------

/// Lowercase every byte of `v`.
pub fn lower_vec(v: &Vec<u8>) -> (r: Vec<u8>)
    ensures
        r@ == lower(v@),
{
    let mut r: Vec<u8> = Vec::new();
    let mut i: usize = 0;
    while i < v.len()
        invariant
            0 <= i <= v@.len(),
            r@ == lower(v@.take(i as int)),
        decreases v@.len() - i,
    {
        r.push(lower_byte(v[i]));
        proof {
            assert(lower(v@.take(i + 1int)) =~= lower(v@.take(i as int)).push(to_lower(
                v@[i as int],
            )));
        }
        i += 1;
    }
    proof {
        assert(v@.take(v@.len() as int) =~= v@);
    }
    r
}

// ---------------------------------------------------------------------------
// Decimal numerals
// ---------------------------------------------------------------------------

/// Every byte of `s` is a decimal digit.
pub open spec fn all_digits(s: Seq<u8>) -> bool {
    forall|i: int| 0 <= i < s.len() ==> is_digit(#[trigger] s[i])
}

/// Decimal numeral of a non-negative integer, most significant digit first.
pub open spec fn dec_digits(n: int) -> Seq<u8>
    decreases n,
{
    if n < 10 {
        seq![(0x30 + (if n >= 0 { n } else { 0int })) as u8]
    } else {
        dec_digits(n / 10) + seq![(0x30 + n % 10) as u8]
    }
}

/// Value of a decimal numeral.
pub open spec fn dec_val(s: Seq<u8>) -> int
    decreases s.len(),
{
    if s.len() == 0 {
        0
    } else {
        dec_val(s.drop_last()) * 10 + (s.last() - 0x30)
    }
}

pub proof fn lemma_dec_digits(n: int)
    requires
        n >= 0,
    ensures
        all_digits(dec_digits(n)),
        dec_digits(n).len() >= 1,
        dec_val(dec_digits(n)) == n,
    decreases n,
{
    if n < 10 {
        let d = dec_digits(n);
        assert(d.drop_last() =~= Seq::<u8>::empty());
        assert(d.last() == (0x30 + n) as u8);
        assert(dec_val(d) == dec_val(d.drop_last()) * 10 + (d.last() - 0x30));
        assert(dec_val(d) == n);
    } else {
        vstd::arithmetic::div_mod::lemma_fundamental_div_mod(n, 10);
        lemma_dec_digits(n / 10);
        let d = dec_digits(n);
        assert(d.drop_last() =~= dec_digits(n / 10));
        assert(0 <= n % 10 && n % 10 < 10);
        assert(d.last() == (0x30 + n % 10) as u8);
        assert(dec_val(d.drop_last()) == n / 10);
        assert(dec_val(d) == (n / 10) * 10 + n % 10);
        assert forall|i: int| 0 <= i < d.len() implies is_digit(#[trigger] d[i]) by {
            if i < d.len() - 1 {
                assert(d[i] == dec_digits(n / 10)[i]);
            }
        }
    }
}

pub proof fn lemma_dec_val_nonneg(s: Seq<u8>)
    requires
        all_digits(s),
    ensures
        dec_val(s) >= 0,
    decreases s.len(),
{
    if s.len() > 0 {
        assert(all_digits(s.drop_last()));
        lemma_dec_val_nonneg(s.drop_last());
    }
}

pub proof fn lemma_dec_val_mono(s: Seq<u8>, k: int)
    requires
        all_digits(s),
        0 <= k <= s.len(),
    ensures
        dec_val(s.take(k)) <= dec_val(s),
    decreases s.len(),
{
    if k == s.len() {
        assert(s.take(k) =~= s);
    } else {
        assert(all_digits(s.drop_last()));
        assert(s.take(k) =~= s.drop_last().take(k));
        lemma_dec_val_mono(s.drop_last(), k);
        lemma_dec_val_nonneg(s.drop_last());
    }
}

/// Decimal numeral of `n`.
pub fn u16_to_dec(n: u16) -> (r: Vec<u8>)
    ensures
        r@ == dec_digits(n as int),
    decreases n,
{
    if n < 10 {
        let mut r: Vec<u8> = Vec::new();
        r.push(0x30 + (n as u8));
        proof {
            assert(r@ =~= dec_digits(n as int));
        }
        r
    } else {
        let mut r = u16_to_dec(n / 10);
        r.push(0x30 + ((n % 10) as u8));
        proof {
            assert(r@ =~= dec_digits((n / 10) as int) + seq![(0x30 + (n as int) % 10) as u8]);
        }
        r
    }
}

/// A port numeral's value, when the numeral is well formed and in range.
pub open spec fn port_of(s: Seq<u8>) -> Option<int> {
    if s.len() > 0 && all_digits(s) && dec_val(s) <= 65535 {
        Some(dec_val(s))
    } else {
        None
    }
}

/// Parse a port numeral.
pub fn parse_port(v: &Vec<u8>) -> (r: Option<u16>)
    ensures
        match r {
            Some(p) => port_of(v@) == Some(p as int),
            None => port_of(v@) == None::<int>,
        },
{
    if v.len() == 0 {
        return None;
    }
    let mut acc: u32 = 0;
    let mut i: usize = 0;
    while i < v.len()
        invariant
            0 <= i <= v@.len(),
            v@.len() > 0,
            acc <= 65535,
            all_digits(v@.take(i as int)),
            acc == dec_val(v@.take(i as int)),
        decreases v@.len() - i,
    {
        let b = v[i];
        if !((0x30 <= b) && (b <= 0x39)) {
            assert(!all_digits(v@));
            return None;
        }
        let acc2: u32 = acc * 10 + ((b - 0x30) as u32);
        proof {
            assert(v@.take(i + 1int).drop_last() =~= v@.take(i as int));
            assert(v@.take(i + 1int).last() == v@[i as int]);
            assert(all_digits(v@.take(i + 1int)));
            assert(acc2 == dec_val(v@.take(i + 1int)));
        }
        if acc2 > 65535 {
            proof {
                if all_digits(v@) {
                    lemma_dec_val_mono(v@, i + 1);
                }
            }
            return None;
        }
        acc = acc2;
        i += 1;
    }
    proof {
        assert(v@.take(v@.len() as int) =~= v@);
    }
    Some(acc as u16)
}

// ---------------------------------------------------------------------------
// Character counting and padding
// ---------------------------------------------------------------------------

/// A UTF-8 continuation byte.
pub open spec fn is_cont_byte(b: u8) -> bool {
    0x80 <= b && b < 0xc0
}

/// Number of characters that `s` holds when read as UTF-8: the bytes that
/// start a character.
pub open spec fn char_count(s: Seq<u8>) -> int
    decreases s.len(),
{
    if s.len() == 0 {
        0
    } else {
        char_count(s.drop_last()) + if is_cont_byte(s.last()) {
            0int
        } else {
            1int
        }
    }
}

/// Count the characters of `v`.
pub fn char_count_vec(v: &Vec<u8>) -> (r: usize)
    ensures
        r == char_count(v@),
{
    let mut cc: usize = 0;
    let mut i: usize = 0;
    while i < v.len()
        invariant
            0 <= i <= v@.len(),
            cc <= i,
            cc == char_count(v@.take(i as int)),
        decreases v@.len() - i,
    {
        let b = v[i];
        proof {
            assert(v@.take(i + 1int).drop_last() =~= v@.take(i as int));
            assert(v@.take(i + 1int).last() == v@[i as int]);
        }
        if !((0x80 <= b) && (b < 0xc0)) {
            cc += 1;
        }
        i += 1;
    }
    proof {
        assert(v@.take(v@.len() as int) =~= v@);
    }
    cc
}

/// `n` space bytes.
pub open spec fn spaces(n: int) -> Seq<u8>
    decreases n,
{
    if n <= 0 {
        Seq::empty()
    } else {
        spaces(n - 1) + seq![0x20u8]
    }
}

/// Build `n` space bytes.
pub fn make_spaces(n: usize) -> (r: Vec<u8>)
    ensures
        r@ == spaces(n as int),
{
    let mut r: Vec<u8> = Vec::new();
    let mut i: usize = 0;
    while i < n
        invariant
            0 <= i <= n,
            r@ == spaces(i as int),
        decreases n - i,
    {
        r.push(0x20);
        proof {
            assert(spaces(i + 1int) =~= spaces(i as int).push(0x20u8));
        }
        i += 1;
    }
    r
}

} // verus!
