use vstd::prelude::*;
use crate::bytes::{
    find, find_byte, is_alpha, is_space, is_upper_alpha, lemma_dec_val_nonneg, lemma_find, lower,
    no_byte, parse_port, port_of, split, split_vec, subvec, to_lower, views_of,
};
use crate::model::{
    copy_vec, is_scheme_char, opt_view, valid_host, valid_scheme, valid_scheme_ci, wf,
    wf_authority, Authority, AuthorityModel, Url, UrlModel,
};
use crate::pct::{allowed, lemma_norm_normal, norm, normal, normalize, Comp};
use crate::Error;

verus! {

broadcast use vstd::seq_lib::group_seq_properties;

// ---------------------------------------------------------------------------
// Whitespace trimming
// ---------------------------------------------------------------------------

/// Drop leading ASCII whitespace.
pub open spec fn trim_start(s: Seq<u8>) -> Seq<u8>
    decreases s.len(),
{
    if s.len() > 0 && is_space(s[0]) {
        trim_start(s.skip(1))
    } else {
        s
    }
}

/// Drop trailing ASCII whitespace.
pub open spec fn trim_end(s: Seq<u8>) -> Seq<u8>
    decreases s.len(),
{
    if s.len() > 0 && is_space(s.last()) {
        trim_end(s.drop_last())
    } else {
        s
    }
}

/// Drop whitespace from both ends.
pub open spec fn trim_ws(s: Seq<u8>) -> Seq<u8> {
    trim_end(trim_start(s))
}

pub proof fn lemma_trim_start_at(s: Seq<u8>, k: int)
    requires
        0 <= k <= s.len(),
        forall|j: int| 0 <= j < k ==> is_space(#[trigger] s[j]),
        k < s.len() ==> !is_space(s[k]),
    ensures
        trim_start(s) == s.skip(k),
    decreases k,
{
    if k == 0 {
        assert(s.skip(0) =~= s);
    } else {
        lemma_trim_start_at(s.skip(1), k - 1);
        assert(s.skip(1).skip(k - 1) =~= s.skip(k));
    }
}

pub proof fn lemma_trim_end_at(s: Seq<u8>, k: int)
    requires
        0 <= k <= s.len(),
        forall|j: int| k <= j < s.len() ==> is_space(#[trigger] s[j]),
        k > 0 ==> !is_space(s[k - 1]),
    ensures
        trim_end(s) == s.take(k),
    decreases s.len(),
{
    if k == s.len() {
        assert(s.take(k) =~= s);
    } else {
        assert(is_space(s.last()));
        lemma_trim_end_at(s.drop_last(), k);
        assert(s.drop_last().take(k) =~= s.take(k));
    }
}

/// Trimming a non-empty all-graphic sequence changes nothing.
pub proof fn lemma_trim_graphic(s: Seq<u8>)
    requires
        s.len() > 0,
        !is_space(s[0]),
        !is_space(s.last()),
    ensures
        trim_ws(s) == s,
{
    lemma_trim_start_at(s, 0);
    lemma_trim_end_at(s, s.len() as int);
    assert(s.take(s.len() as int) =~= s);
}

/// Exec test for `is_space`.
pub fn space_byte(b: u8) -> (r: bool)
    ensures
        r == is_space(b),
{
    b == 0x20 || b == 0x09 || b == 0x0a || b == 0x0d
}

/// Trim whitespace from both ends of `v`.
pub fn trim_vec(v: &Vec<u8>) -> (r: Vec<u8>)
    ensures
        r@ == trim_ws(v@),
{
    let mut a: usize = 0;
    while a < v.len() && space_byte(v[a])
        invariant
            0 <= a <= v@.len(),
            forall|j: int| 0 <= j < a ==> is_space(#[trigger] v@[j]),
        decreases v@.len() - a,
    {
        a += 1;
    }
    let mut b: usize = v.len();
    while b > a && space_byte(v[b - 1])
        invariant
            a <= b <= v@.len(),
            forall|j: int| b <= j < v@.len() ==> is_space(#[trigger] v@[j]),
        decreases b,
    {
        b -= 1;
    }
    let r = crate::bytes::subvec(v, a, b);
    proof {
        lemma_trim_start_at(v@, a as int);
        let t = v@.skip(a as int);
        assert forall|j: int| (b - a) <= j < t.len() implies is_space(#[trigger] t[j]) by {
            assert(t[j] == v@[j + a]);
        }
        if b > a {
            assert(t[b - a - 1] == v@[b - 1int]);
        }
        lemma_trim_end_at(t, b - a);
        assert(t.take(b - a) =~= v@.subrange(a as int, b as int));
    }
    r
}

// ---------------------------------------------------------------------------
// Region ends
// ---------------------------------------------------------------------------

/// Is `b` a byte that ends the authority region?
pub open spec fn is_auth_delim(b: u8) -> bool {
    b == 0x2f || b == 0x3f || b == 0x23
}

/// Is `b` a byte that ends the path region?
pub open spec fn is_path_delim(b: u8) -> bool {
    b == 0x3f || b == 0x23
}

/// Length of the authority region: up to the first `/`, `?` or `#`.
pub open spec fn auth_end(s: Seq<u8>) -> int
    decreases s.len(),
{
    if s.len() == 0 {
        0
    } else if is_auth_delim(s[0]) {
        0
    } else {
        1 + auth_end(s.skip(1))
    }
}

/// Length of the path region: up to the first `?` or `#`.
pub open spec fn path_end(s: Seq<u8>) -> int
    decreases s.len(),
{
    if s.len() == 0 {
        0
    } else if is_path_delim(s[0]) {
        0
    } else {
        1 + path_end(s.skip(1))
    }
}

pub proof fn lemma_auth_end_at(s: Seq<u8>, k: int)
    requires
        0 <= k <= s.len(),
        forall|j: int| 0 <= j < k ==> !is_auth_delim(#[trigger] s[j]),
        k < s.len() ==> is_auth_delim(s[k]),
    ensures
        auth_end(s) == k,
    decreases k,
{
    if k == 0 {
    } else {
        lemma_auth_end_at(s.skip(1), k - 1);
    }
}

pub proof fn lemma_path_end_at(s: Seq<u8>, k: int)
    requires
        0 <= k <= s.len(),
        forall|j: int| 0 <= j < k ==> !is_path_delim(#[trigger] s[j]),
        k < s.len() ==> is_path_delim(s[k]),
    ensures
        path_end(s) == k,
    decreases k,
{
    if k == 0 {
    } else {
        lemma_path_end_at(s.skip(1), k - 1);
    }
}

pub proof fn lemma_auth_end(s: Seq<u8>)
    ensures
        0 <= auth_end(s) <= s.len(),
        forall|j: int| 0 <= j < auth_end(s) ==> !is_auth_delim(#[trigger] s[j]),
        auth_end(s) < s.len() ==> is_auth_delim(s[auth_end(s)]),
    decreases s.len(),
{
    if s.len() > 0 && !is_auth_delim(s[0]) {
        lemma_auth_end(s.skip(1));
        assert forall|j: int| 0 <= j < auth_end(s) implies !is_auth_delim(#[trigger] s[j]) by {
            if j >= 1 {
                assert(s.skip(1)[j - 1] == s[j]);
            }
        }
    }
}

pub proof fn lemma_path_end(s: Seq<u8>)
    ensures
        0 <= path_end(s) <= s.len(),
        forall|j: int| 0 <= j < path_end(s) ==> !is_path_delim(#[trigger] s[j]),
        path_end(s) < s.len() ==> is_path_delim(s[path_end(s)]),
    decreases s.len(),
{
    if s.len() > 0 && !is_path_delim(s[0]) {
        lemma_path_end(s.skip(1));
        assert forall|j: int| 0 <= j < path_end(s) implies !is_path_delim(#[trigger] s[j]) by {
            if j >= 1 {
                assert(s.skip(1)[j - 1] == s[j]);
            }
        }
    }
}

// ---------------------------------------------------------------------------
// Spec-level parsing
// ---------------------------------------------------------------------------

/// Normalize every path segment.
pub open spec fn norm_segs(parts: Seq<Seq<u8>>) -> Seq<Seq<u8>> {
    parts.map_values(|p: Seq<u8>| norm(p, Comp::Segment))
}

/// Parse a path region into its absolute flag and segments; `/` alone is
/// the absolute empty path.
pub open spec fn parse_path(p: Seq<u8>) -> (bool, Seq<Seq<u8>>) {
    if p.len() == 0 {
        (false, Seq::empty())
    } else if p[0] == 0x2f {
        if p.len() == 1 {
            (true, Seq::empty())
        } else {
            (true, norm_segs(split(p.skip(1), 0x2f)))
        }
    } else {
        (false, norm_segs(split(p, 0x2f)))
    }
}

/// Parse the query/fragment tail that follows the path region.
pub open spec fn parse_qf(t: Seq<u8>) -> (Option<Seq<u8>>, Option<Seq<u8>>) {
    if t.len() == 0 {
        (None, None)
    } else if t[0] == 0x3f {
        let qf = t.skip(1);
        match find(qf, 0x23) {
            None => (Some(norm(qf, Comp::Query)), None),
            Some(fi) => (
                Some(norm(qf.take(fi), Comp::Query)),
                Some(norm(qf.skip(fi + 1), Comp::Fragment)),
            ),
        }
    } else {
        (None, Some(norm(t.skip(1), Comp::Fragment)))
    }
}

/// Parse path, query and fragment.
pub open spec fn parse_pqf(s: Seq<u8>) -> (bool, Seq<Seq<u8>>, Option<Seq<u8>>, Option<Seq<u8>>) {
    let pe = path_end(s);
    let pa = parse_path(s.take(pe));
    let qf = parse_qf(s.skip(pe));
    (pa.0, pa.1, qf.0, qf.1)
}

/// Split the userinfo (before the first `@`) from the host/port part.
pub open spec fn split_userinfo(a: Seq<u8>) -> (Option<Seq<u8>>, Seq<u8>) {
    match find(a, 0x40) {
        None => (None, a),
        Some(x) => (Some(a.take(x)), a.skip(x + 1)),
    }
}

/// Split a userinfo at its first `:` into username and password, each
/// normalized.
pub open spec fn parse_userinfo(u: Seq<u8>) -> (Option<Seq<u8>>, Option<Seq<u8>>) {
    match find(u, 0x3a) {
        None => (Some(norm(u, Comp::User)), None),
        Some(ci) => (
            Some(norm(u.take(ci), Comp::User)),
            Some(norm(u.skip(ci + 1), Comp::Pass)),
        ),
    }
}

/// Split the host from the optional port numeral; a bracketed host runs to
/// its closing `]`.
pub open spec fn split_hostport(hp: Seq<u8>) -> Option<(Seq<u8>, Option<Seq<u8>>)> {
    if hp.len() == 0 {
        None
    } else if hp[0] == 0x5b {
        match find(hp, 0x5d) {
            None => None,
            Some(bi) => if bi == hp.len() - 1 {
                Some((hp, None))
            } else if hp[bi + 1] == 0x3a {
                Some((hp.take(bi + 1), Some(hp.skip(bi + 2))))
            } else {
                None
            },
        }
    } else {
        match find(hp, 0x3a) {
            None => Some((hp, None)),
            Some(ci) => Some((hp.take(ci), Some(hp.skip(ci + 1)))),
        }
    }
}

/// Parse an authority region.
pub open spec fn parse_authority(a: Seq<u8>) -> Option<AuthorityModel> {
    let uihp = split_userinfo(a);
    let userinfo = match uihp.0 {
        None => (None, None),
        Some(u) => parse_userinfo(u),
    };
    match split_hostport(uihp.1) {
        None => None,
        Some(hps) => if valid_host(hps.0) {
            match hps.1 {
                None => Some(
                    AuthorityModel {
                        username: userinfo.0,
                        password: userinfo.1,
                        host: hps.0,
                        port: None,
                    },
                ),
                Some(pstr) => match port_of(pstr) {
                    None => None,
                    Some(pv) => Some(
                        AuthorityModel {
                            username: userinfo.0,
                            password: userinfo.1,
                            host: hps.0,
                            port: Some(pv),
                        },
                    ),
                },
            }
        } else {
            None
        },
    }
}

/// Parse everything that follows `scheme:`.
pub open spec fn parse_rest(rest: Seq<u8>) -> Option<RestModel> {
    if rest.len() >= 2 && rest[0] == 0x2f && rest[1] == 0x2f {
        let ar = rest.skip(2);
        let ae = auth_end(ar);
        match parse_authority(ar.take(ae)) {
            None => None,
            Some(a) => {
                let pqf = parse_pqf(ar.skip(ae));
                Some(
                    RestModel {
                        authority: Some(a),
                        path_abs: true,
                        segments: pqf.1,
                        query: pqf.2,
                        fragment: pqf.3,
                    },
                )
            },
        }
    } else {
        let pqf = parse_pqf(rest);
        Some(
            RestModel {
                authority: None,
                path_abs: pqf.0,
                segments: pqf.1,
                query: pqf.2,
                fragment: pqf.3,
            },
        )
    }
}

/// Parse an absolute URL string.
pub open spec fn parse_url(raw: Seq<u8>) -> Option<UrlModel> {
    let s = trim_ws(raw);
    match find(s, 0x3a) {
        None => None,
        Some(ci) => {
            if valid_scheme_ci(s.take(ci)) {
                match parse_rest(s.skip(ci + 1)) {
                    None => None,
                    Some(m) => Some(
                        UrlModel {
                            scheme: lower(s.take(ci)),
                            authority: m.authority,
                            path_abs: m.path_abs || m.authority.is_some(),
                            segments: m.segments,
                            query: m.query,
                            fragment: m.fragment,
                        },
                    ),
                }
            } else {
                None
            }
        },
    }
}

/// Parse a reference: like `parse_url`, but a string without a valid scheme
/// prefix is a relative reference.
pub open spec fn parse_ref(raw: Seq<u8>) -> Option<RefModel> {
    let s = trim_ws(raw);
    let abs = match find(s, 0x3a) {
        None => false,
        Some(ci) => valid_scheme_ci(s.take(ci)),
    };
    if abs {
        match parse_url(raw) {
            None => None,
            Some(u) => Some(
                RefModel {
                    scheme: Some(u.scheme),
                    authority: u.authority,
                    path_abs: u.path_abs,
                    segments: u.segments,
                    query: u.query,
                    fragment: u.fragment,
                },
            ),
        }
    } else {
        match parse_rest(s) {
            None => None,
            Some(m) => Some(
                RefModel {
                    scheme: None,
                    authority: m.authority,
                    path_abs: m.path_abs || m.authority.is_some(),
                    segments: m.segments,
                    query: m.query,
                    fragment: m.fragment,
                },
            ),
        }
    }
}

/// Mathematical model of what follows a scheme.
pub ghost struct RestModel {
    pub authority: Option<AuthorityModel>,
    pub path_abs: bool,
    pub segments: Seq<Seq<u8>>,
    pub query: Option<Seq<u8>>,
    pub fragment: Option<Seq<u8>>,
}

/// Mathematical model of a relative reference.
pub ghost struct RefModel {
    pub scheme: Option<Seq<u8>>,
    pub authority: Option<AuthorityModel>,
    pub path_abs: bool,
    pub segments: Seq<Seq<u8>>,
    pub query: Option<Seq<u8>>,
    pub fragment: Option<Seq<u8>>,
}


// ---------------------------------------------------------------------------
// Well-formedness of parse results
// ---------------------------------------------------------------------------

/// Normalization yields an empty sequence exactly for empty input.
pub proof fn lemma_norm_empty(s: Seq<u8>, c: Comp)
    ensures
        norm(s, c).len() == 0 <==> s.len() == 0,
    decreases s.len(),
{
    if s.len() > 0 {
        lemma_norm_empty(s.skip(1), c);
    }
}

/// The first part of a split is the whole input when nothing was found, and
/// it is non-empty when the input does not begin with the separator.
pub proof fn lemma_split_first(s: Seq<u8>, sep: u8)
    ensures
        split(s, sep).len() >= 1,
        (s.len() > 0 && s[0] != sep) ==> split(s, sep)[0].len() > 0,
        split(s, sep).len() == 1 ==> split(s, sep)[0] == s,
    decreases s.len(),
{
    lemma_find(s, sep);
    match find(s, sep) {
        None => {},
        Some(i) => {
            lemma_split_first(s.skip(i + 1), sep);
        },
    }
}

/// Lowercasing a case-insensitive scheme yields a stored-form scheme.
pub proof fn lemma_lower_scheme(s: Seq<u8>)
    requires
        valid_scheme_ci(s),
    ensures
        valid_scheme(lower(s)),
{
    assert(lower(s).len() == s.len());
    assert(lower(s)[0] == to_lower(s[0]));
    assert forall|i: int| 1 <= i < lower(s).len() implies is_scheme_char(
        #[trigger] lower(s)[i],
    ) by {
        assert(lower(s)[i] == to_lower(s[i]));
    }
    assert forall|i: int| 0 <= i < lower(s).len() implies !is_upper_alpha(
        #[trigger] lower(s)[i],
    ) by {
        assert(lower(s)[i] == to_lower(s[i]));
    }
}

/// The path parser yields normalized segments and never the lone empty
/// segment; when the region cannot begin with `//`, a leading empty segment
/// is impossible too.
pub proof fn lemma_parse_path_wf(p: Seq<u8>)
    ensures
        forall|i: int|
            0 <= i < parse_path(p).1.len() ==> normal(#[trigger] parse_path(p).1[i], Comp::Segment),
        !(parse_path(p).1.len() == 1 && parse_path(p).1[0].len() == 0),
        !(p.len() >= 2 && p[0] == 0x2f && p[1] == 0x2f) ==> (parse_path(p).1.len() > 0
            ==> parse_path(p).1[0].len() > 0),
{
    let segs = parse_path(p).1;
    if p.len() == 0 {
    } else if p[0] == 0x2f {
        if p.len() == 1 {
        } else {
            let rest = p.skip(1);
            let parts = split(rest, 0x2f);
            lemma_split_first(rest, 0x2f);
            assert forall|i: int| 0 <= i < segs.len() implies normal(
                #[trigger] segs[i],
                Comp::Segment,
            ) by {
                assert(segs[i] == norm(parts[i], Comp::Segment));
                lemma_norm_normal(parts[i], Comp::Segment);
            }
            if segs.len() == 1 {
                assert(parts[0] == rest);
                lemma_norm_empty(rest, Comp::Segment);
                assert(segs[0] == norm(parts[0], Comp::Segment));
            }
            if !(p.len() >= 2 && p[1] == 0x2f) && segs.len() > 0 {
                assert(rest[0] == p[1]);
                lemma_norm_empty(parts[0], Comp::Segment);
                assert(segs[0] == norm(parts[0], Comp::Segment));
            }
        }
    } else {
        let parts = split(p, 0x2f);
        lemma_split_first(p, 0x2f);
        assert forall|i: int| 0 <= i < segs.len() implies normal(
            #[trigger] segs[i],
            Comp::Segment,
        ) by {
            assert(segs[i] == norm(parts[i], Comp::Segment));
            lemma_norm_normal(parts[i], Comp::Segment);
        }
        lemma_norm_empty(parts[0], Comp::Segment);
        assert(segs[0] == norm(parts[0], Comp::Segment));
        if segs.len() == 1 {
            assert(parts[0] == p);
        }
    }
}

/// The query/fragment parser yields normalized components.
pub proof fn lemma_parse_qf_wf(t: Seq<u8>)
    ensures
        match parse_qf(t).0 {
            Some(q) => normal(q, Comp::Query),
            None => true,
        },
        match parse_qf(t).1 {
            Some(f) => normal(f, Comp::Fragment),
            None => true,
        },
{
    if t.len() == 0 {
    } else if t[0] == 0x3f {
        let qf = t.skip(1);
        match find(qf, 0x23) {
            None => {
                lemma_norm_normal(qf, Comp::Query);
            },
            Some(fi) => {
                lemma_norm_normal(qf.take(fi), Comp::Query);
                lemma_norm_normal(qf.skip(fi + 1), Comp::Fragment);
            },
        }
    } else {
        lemma_norm_normal(t.skip(1), Comp::Fragment);
    }
}

/// A parsed authority is well formed.
pub proof fn lemma_parse_authority_wf(a: Seq<u8>)
    ensures
        match parse_authority(a) {
            Some(m) => wf_authority(m),
            None => true,
        },
{
    match parse_authority(a) {
        Some(m) => {
            let uihp = split_userinfo(a);
            match uihp.0 {
                None => {},
                Some(u) => {
                    match find(u, 0x3a) {
                        None => {
                            lemma_norm_normal(u, Comp::User);
                        },
                        Some(ci) => {
                            lemma_norm_normal(u.take(ci), Comp::User);
                            lemma_norm_normal(u.skip(ci + 1), Comp::Pass);
                        },
                    }
                },
            }
            match split_hostport(uihp.1) {
                None => {},
                Some(hps) => {
                    match hps.1 {
                        None => {},
                        Some(pstr) => {
                            if port_of(pstr) is Some {
                                lemma_dec_val_nonneg(pstr);
                            }
                        },
                    }
                },
            }
        },
        None => {},
    }
}

// ---------------------------------------------------------------------------
// Exec scanning helpers
// ---------------------------------------------------------------------------

/// Does `v` contain byte `b`?
pub fn has_byte(v: &Vec<u8>, b: u8) -> (r: bool)
    ensures
        r == !no_byte(v@, b),
{
    proof {
        lemma_find(v@, b);
    }
    match find_byte(v, b) {
        Some(_) => true,
        None => false,
    }
}

/// Exec scan for the end of the authority region.
fn auth_end_vec(v: &Vec<u8>) -> (r: usize)
    ensures
        r as int == auth_end(v@),
{
    let mut i: usize = 0;
    while i < v.len()
        invariant
            0 <= i <= v@.len(),
            forall|j: int| 0 <= j < i ==> !is_auth_delim(#[trigger] v@[j]),
        decreases v@.len() - i,
    {
        let b = v[i];
        if b == 0x2f || b == 0x3f || b == 0x23 {
            proof {
                lemma_auth_end_at(v@, i as int);
            }
            return i;
        }
        i += 1;
    }
    proof {
        lemma_auth_end_at(v@, v@.len() as int);
    }
    i
}

/// Exec scan for the end of the path region.
fn path_end_vec(v: &Vec<u8>) -> (r: usize)
    ensures
        r as int == path_end(v@),
{
    let mut i: usize = 0;
    while i < v.len()
        invariant
            0 <= i <= v@.len(),
            forall|j: int| 0 <= j < i ==> !is_path_delim(#[trigger] v@[j]),
        decreases v@.len() - i,
    {
        let b = v[i];
        if b == 0x3f || b == 0x23 {
            proof {
                lemma_path_end_at(v@, i as int);
            }
            return i;
        }
        i += 1;
    }
    proof {
        lemma_path_end_at(v@, v@.len() as int);
    }
    i
}

/// Exec check of the scheme grammar, ignoring case.
pub fn check_scheme_ci(v: &Vec<u8>) -> (r: bool)
    ensures
        r == valid_scheme_ci(v@),
{
    if v.len() == 0 {
        return false;
    }
    let b0 = v[0];
    if !(((0x41 <= b0) && (b0 <= 0x5a)) || ((0x61 <= b0) && (b0 <= 0x7a))) {
        return false;
    }
    let mut i: usize = 1;
    while i < v.len()
        invariant
            1 <= i <= v@.len(),
            forall|j: int| 1 <= j < i ==> is_scheme_char(#[trigger] v@[j]),
        decreases v@.len() - i,
    {
        let b = v[i];
        if !(((0x41 <= b) && (b <= 0x5a)) || ((0x61 <= b) && (b <= 0x7a)) || ((0x30 <= b) && (b
            <= 0x39)) || b == 0x2b || b == 0x2d || b == 0x2e) {
            return false;
        }
        i += 1;
    }
    true
}

/// Exec check of the host grammar.
pub fn check_host(h: &Vec<u8>) -> (r: bool)
    ensures
        r == valid_host(h@),
{
    if h.len() == 0 {
        return false;
    }
    if has_byte(h, 0x2f) || has_byte(h, 0x3f) || has_byte(h, 0x23) || has_byte(h, 0x40) {
        return false;
    }
    if h[0] == 0x5b {
        if h.len() < 2 {
            return false;
        }
        if h[h.len() - 1] != 0x5d {
            return false;
        }
        let mut i: usize = 1;
        while i < h.len() - 1
            invariant
                h@.len() >= 2,
                h@[0] == 0x5b,
                1 <= i <= h@.len() - 1,
                forall|j: int| 1 <= j < i ==> #[trigger] h@[j] != 0x5d,
            decreases h.len() - i,
        {
            if h[i] == 0x5d {
                return false;
            }
            i += 1;
        }
        true
    } else {
        !has_byte(h, 0x3a)
    }
}

/// Normalize every part as a path segment.
fn norm_segs_vec(parts: &Vec<Vec<u8>>) -> (r: Vec<Vec<u8>>)
    ensures
        views_of(r@) == norm_segs(views_of(parts@)),
{
    let mut r: Vec<Vec<u8>> = Vec::new();
    let mut i: usize = 0;
    while i < parts.len()
        invariant
            0 <= i <= parts@.len(),
            r@.len() == i,
            forall|t: int| 0 <= t < i ==> #[trigger] r@[t]@ == norm(parts@[t]@, Comp::Segment),
        decreases parts@.len() - i,
    {
        let s = normalize(&parts[i], Comp::Segment);
        r.push(s);
        i += 1;
    }
    proof {
        assert(views_of(r@) =~= norm_segs(views_of(parts@)));
    }
    r
}


// ---------------------------------------------------------------------------
// Exec parsing
// ---------------------------------------------------------------------------

/// Parse the query and fragment tail.
fn parse_qf_vec(t: &Vec<u8>) -> (r: (Option<Vec<u8>>, Option<Vec<u8>>))
    ensures
        opt_view(r.0) == parse_qf(t@).0,
        opt_view(r.1) == parse_qf(t@).1,
{
    if t.len() == 0 {
        (None, None)
    } else if t[0] == 0x3f {
        let qf = subvec(t, 1, t.len());
        proof {
            assert(qf@ =~= t@.skip(1));
        }
        match find_byte(&qf, 0x23) {
            None => {
                let q = normalize(&qf, Comp::Query);
                (Some(q), None)
            },
            Some(fi) => {
                proof {
                    lemma_find(qf@, 0x23);
                }
                let qpart = subvec(&qf, 0, fi);
                let fpart = subvec(&qf, fi + 1, qf.len());
                proof {
                    assert(qpart@ =~= qf@.take(fi as int));
                    assert(fpart@ =~= qf@.skip(fi + 1));
                }
                (Some(normalize(&qpart, Comp::Query)), Some(normalize(&fpart, Comp::Fragment)))
            },
        }
    } else {
        let f = subvec(t, 1, t.len());
        proof {
            assert(f@ =~= t@.skip(1));
        }
        (None, Some(normalize(&f, Comp::Fragment)))
    }
}

/// Parse a path region.
pub(crate) fn parse_path_vec(p: &Vec<u8>) -> (r: (bool, Vec<Vec<u8>>))
    ensures
        r.0 == parse_path(p@).0,
        views_of(r.1@) == parse_path(p@).1,
{
    if p.len() == 0 {
        let e: Vec<Vec<u8>> = Vec::new();
        proof {
            assert(views_of(e@) =~= Seq::<Seq<u8>>::empty());
        }
        (false, e)
    } else if p[0] == 0x2f {
        if p.len() == 1 {
            let e: Vec<Vec<u8>> = Vec::new();
            proof {
                assert(views_of(e@) =~= Seq::<Seq<u8>>::empty());
            }
            (true, e)
        } else {
            let rest = subvec(p, 1, p.len());
            proof {
                assert(rest@ =~= p@.skip(1));
            }
            let parts = split_vec(&rest, 0x2f);
            let segs = norm_segs_vec(&parts);
            (true, segs)
        }
    } else {
        let parts = split_vec(p, 0x2f);
        let segs = norm_segs_vec(&parts);
        (false, segs)
    }
}

/// Parse an authority region.
fn parse_authority_vec(a: &Vec<u8>) -> (r: Option<Authority>)
    ensures
        match r {
            Some(x) => parse_authority(a@) == Some(x@) && wf_authority(x@),
            None => parse_authority(a@) is None,
        },
{
    proof {
        lemma_parse_authority_wf(a@);
    }
    let ghost uihp = split_userinfo(a@);
    let (username, password, hp): (Option<Vec<u8>>, Option<Vec<u8>>, Vec<u8>) = match find_byte(
        a,
        0x40,
    ) {
        None => (None, None, copy_vec(a)),
        Some(x) => {
            proof {
                lemma_find(a@, 0x40);
            }
            let n = a.len();
            let u = subvec(a, 0, x);
            let hp0 = subvec(a, x + 1, n);
            proof {
                assert(u@ =~= a@.take(x as int));
                assert(hp0@ =~= a@.skip(x + 1));
            }
            match find_byte(&u, 0x3a) {
                None => {
                    let un = normalize(&u, Comp::User);
                    (Some(un), None, hp0)
                },
                Some(ci) => {
                    proof {
                        lemma_find(u@, 0x3a);
                    }
                    let up = subvec(&u, 0, ci);
                    let pp = subvec(&u, ci + 1, u.len());
                    proof {
                        assert(up@ =~= u@.take(ci as int));
                        assert(pp@ =~= u@.skip(ci + 1));
                    }
                    (Some(normalize(&up, Comp::User)), Some(normalize(&pp, Comp::Pass)), hp0)
                },
            }
        },
    };
    proof {
        assert(hp@ == uihp.1);
        assert((opt_view(username), opt_view(password)) == (match uihp.0 {
            None => (None::<Seq<u8>>, None::<Seq<u8>>),
            Some(u) => parse_userinfo(u),
        }));
    }
    if hp.len() == 0 {
        return None;
    }
    let (host, portstr): (Vec<u8>, Option<Vec<u8>>) = if hp[0] == 0x5b {
        match find_byte(&hp, 0x5d) {
            None => {
                return None;
            },
            Some(bi) => {
                proof {
                    lemma_find(hp@, 0x5d);
                }
                if bi == hp.len() - 1 {
                    (copy_vec(&hp), None)
                } else if hp[bi + 1] == 0x3a {
                    let h = subvec(&hp, 0, bi + 1);
                    let ps = subvec(&hp, bi + 2, hp.len());
                    proof {
                        assert(h@ =~= hp@.take(bi + 1));
                        assert(ps@ =~= hp@.skip(bi + 2));
                    }
                    (h, Some(ps))
                } else {
                    return None;
                }
            },
        }
    } else {
        match find_byte(&hp, 0x3a) {
            None => (copy_vec(&hp), None),
            Some(ci) => {
                proof {
                    lemma_find(hp@, 0x3a);
                }
                let h = subvec(&hp, 0, ci);
                let ps = subvec(&hp, ci + 1, hp.len());
                proof {
                    assert(h@ =~= hp@.take(ci as int));
                    assert(ps@ =~= hp@.skip(ci + 1));
                }
                (h, Some(ps))
            },
        }
    };
    proof {
        assert(split_hostport(uihp.1) == Some((host@, opt_view(portstr))));
    }
    if !check_host(&host) {
        return None;
    }
    let port: Option<u16> = match &portstr {
        None => None,
        Some(ps) => match parse_port(ps) {
            None => {
                return None;
            },
            Some(p) => Some(p),
        },
    };
    let x = Authority { username, password, host, port };
    proof {
        assert(parse_authority(a@) == Some(x@));
    }
    Some(x)
}

/// What follows a scheme, parsed.
pub struct Rest {
    pub authority: Option<Authority>,
    pub path_abs: bool,
    pub segments: Vec<Vec<u8>>,
    pub query: Option<Vec<u8>>,
    pub fragment: Option<Vec<u8>>,
}

impl View for Rest {
    type V = RestModel;

    open spec fn view(&self) -> RestModel {
        RestModel {
            authority: match self.authority {
                Some(a) => Some(a@),
                None => None,
            },
            path_abs: self.path_abs,
            segments: views_of(self.segments@),
            query: opt_view(self.query),
            fragment: opt_view(self.fragment),
        }
    }
}

/// Well-formedness of a parsed rest.
pub open spec fn wf_rest(m: RestModel) -> bool {
    &&& match m.authority {
        Some(a) => wf_authority(a) && m.path_abs,
        None => true,
    }
    &&& forall|i: int| 0 <= i < m.segments.len() ==> normal(#[trigger] m.segments[i], Comp::Segment)
    &&& (m.segments.len() > 0 && m.authority.is_none() ==> m.segments[0].len() > 0)
    &&& !(m.segments.len() == 1 && m.segments[0].len() == 0)
    &&& match m.query {
        Some(q) => normal(q, Comp::Query),
        None => true,
    }
    &&& match m.fragment {
        Some(f) => normal(f, Comp::Fragment),
        None => true,
    }
}

/// Parse everything that follows `scheme:`.
fn parse_rest_vec(rest: &Vec<u8>) -> (r: Option<Rest>)
    ensures
        match r {
            Some(m) => parse_rest(rest@) == Some(m@) && wf_rest(m@),
            None => parse_rest(rest@) is None,
        },
{
    if rest.len() >= 2 && rest[0] == 0x2f && rest[1] == 0x2f {
        let ar = subvec(rest, 2, rest.len());
        proof {
            assert(ar@ =~= rest@.skip(2));
            lemma_auth_end(ar@);
        }
        let ae = auth_end_vec(&ar);
        let auth_str = subvec(&ar, 0, ae);
        proof {
            assert(auth_str@ =~= ar@.take(auth_end(ar@)));
        }
        match parse_authority_vec(&auth_str) {
            None => None,
            Some(a) => {
                let pqf = subvec(&ar, ae, ar.len());
                proof {
                    assert(pqf@ =~= ar@.skip(auth_end(ar@)));
                    lemma_path_end(pqf@);
                }
                let pe = path_end_vec(&pqf);
                let ppart = subvec(&pqf, 0, pe);
                let qfpart = subvec(&pqf, pe, pqf.len());
                proof {
                    assert(ppart@ =~= pqf@.take(path_end(pqf@)));
                    assert(qfpart@ =~= pqf@.skip(path_end(pqf@)));
                }
                let pa = parse_path_vec(&ppart);
                let qf = parse_qf_vec(&qfpart);
                let m = Rest {
                    authority: Some(a),
                    path_abs: true,
                    segments: pa.1,
                    query: qf.0,
                    fragment: qf.1,
                };
                proof {
                    assert(parse_rest(rest@) == Some(m@));
                    lemma_parse_path_wf(ppart@);
                    lemma_parse_qf_wf(qfpart@);
                    assert(wf_rest(m@));
                }
                Some(m)
            },
        }
    } else {
        proof {
            lemma_path_end(rest@);
        }
        let pe = path_end_vec(rest);
        let ppart = subvec(rest, 0, pe);
        let qfpart = subvec(rest, pe, rest.len());
        proof {
            assert(ppart@ =~= rest@.take(path_end(rest@)));
            assert(qfpart@ =~= rest@.skip(path_end(rest@)));
        }
        let pa = parse_path_vec(&ppart);
        let qf = parse_qf_vec(&qfpart);
        let m = Rest {
            authority: None,
            path_abs: pa.0,
            segments: pa.1,
            query: qf.0,
            fragment: qf.1,
        };
        proof {
            assert(parse_rest(rest@) == Some(m@));
            lemma_parse_path_wf(ppart@);
            lemma_parse_qf_wf(qfpart@);
            if ppart@.len() >= 2 {
                assert(ppart@[0] == rest@[0]);
                assert(ppart@[1] == rest@[1]);
            }
            assert(wf_rest(m@));
        }
        Some(m)
    }
}

/// Parse an absolute URL string; leading and trailing whitespace is
/// ignored, the scheme is lowercased, and every component is
/// percent-normalized.  Fails with `SyntaxError` exactly when the string
/// has no valid scheme before its first `:`, or its authority or port is
/// malformed.
pub fn parse(v: &Vec<u8>) -> (r: Result<Url, Error>)
    ensures
        match r {
            Ok(u) => parse_url(v@) == Some(u@) && wf(u@),
            Err(e) => parse_url(v@) is None && e == Error::SyntaxError,
        },
{
    let t = trim_vec(v);
    match find_byte(&t, 0x3a) {
        None => Err(Error::SyntaxError),
        Some(ci) => {
            proof {
                lemma_find(t@, 0x3a);
            }
            let n = t.len();
            let sch = subvec(&t, 0, ci);
            proof {
                assert(sch@ =~= t@.take(ci as int));
            }
            if !check_scheme_ci(&sch) {
                return Err(Error::SyntaxError);
            }
            let scheme = crate::bytes::lower_vec(&sch);
            let rest = subvec(&t, ci + 1, n);
            proof {
                assert(rest@ =~= t@.skip(ci + 1));
            }
            match parse_rest_vec(&rest) {
                None => Err(Error::SyntaxError),
                Some(m) => {
                    let pabs = m.path_abs || m.authority.is_some();
                    let u = Url {
                        scheme,
                        authority: m.authority,
                        path_abs: pabs,
                        segments: m.segments,
                        query: m.query,
                        fragment: m.fragment,
                    };
                    proof {
                        lemma_lower_scheme(sch@);
                        assert(parse_url(v@) == Some(u@));
                        assert(wf(u@));
                    }
                    Ok(u)
                },
            }
        },
    }
}

/// A parsed reference: a URL that may lack a scheme, an authority, or both.
pub struct Reference {
    pub scheme: Option<Vec<u8>>,
    pub authority: Option<Authority>,
    pub path_abs: bool,
    pub segments: Vec<Vec<u8>>,
    pub query: Option<Vec<u8>>,
    pub fragment: Option<Vec<u8>>,
}

impl View for Reference {
    type V = RefModel;

    open spec fn view(&self) -> RefModel {
        RefModel {
            scheme: opt_view(self.scheme),
            authority: match self.authority {
                Some(a) => Some(a@),
                None => None,
            },
            path_abs: self.path_abs,
            segments: views_of(self.segments@),
            query: opt_view(self.query),
            fragment: opt_view(self.fragment),
        }
    }
}

/// Well-formedness of a parsed reference.
pub open spec fn wf_ref(m: RefModel) -> bool {
    &&& match m.scheme {
        Some(s) => valid_scheme(s),
        None => true,
    }
    &&& match m.authority {
        Some(a) => wf_authority(a) && m.path_abs,
        None => true,
    }
    &&& forall|i: int| 0 <= i < m.segments.len() ==> normal(#[trigger] m.segments[i], Comp::Segment)
    &&& (m.segments.len() > 0 && m.authority.is_none() ==> m.segments[0].len() > 0)
    &&& !(m.segments.len() == 1 && m.segments[0].len() == 0)
    &&& match m.query {
        Some(q) => normal(q, Comp::Query),
        None => true,
    }
    &&& match m.fragment {
        Some(f) => normal(f, Comp::Fragment),
        None => true,
    }
}

/// Parse a reference string: an absolute URL when a valid scheme token
/// precedes the first `:`, otherwise a relative reference, which may be
/// empty.
pub fn parse_reference(v: &Vec<u8>) -> (r: Result<Reference, Error>)
    ensures
        match r {
            Ok(m) => parse_ref(v@) == Some(m@) && wf_ref(m@),
            Err(e) => parse_ref(v@) is None && e == Error::SyntaxError,
        },
{
    let t = trim_vec(v);
    let absolute = match find_byte(&t, 0x3a) {
        None => false,
        Some(ci) => {
            proof {
                lemma_find(t@, 0x3a);
            }
            let sch = subvec(&t, 0, ci);
            proof {
                assert(sch@ =~= t@.take(ci as int));
            }
            check_scheme_ci(&sch)
        },
    };
    if absolute {
        match parse(v) {
            Err(e) => Err(e),
            Ok(u) => {
                let rf = Reference {
                    scheme: Some(u.scheme),
                    authority: u.authority,
                    path_abs: u.path_abs,
                    segments: u.segments,
                    query: u.query,
                    fragment: u.fragment,
                };
                proof {
                    assert(parse_ref(v@) == Some(rf@));
                }
                Ok(rf)
            },
        }
    } else {
        match parse_rest_vec(&t) {
            None => Err(Error::SyntaxError),
            Some(m) => {
                let pabs = m.path_abs || m.authority.is_some();
                let rf = Reference {
                    scheme: None,
                    authority: m.authority,
                    path_abs: pabs,
                    segments: m.segments,
                    query: m.query,
                    fragment: m.fragment,
                };
                proof {
                    assert(parse_ref(v@) == Some(rf@));
                }
                Ok(rf)
            },
        }
    }
}

} // verus!
