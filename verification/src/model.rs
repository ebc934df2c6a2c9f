use vstd::prelude::*;
use crate::bytes::{
    dec_digits, is_alpha, is_digit, is_upper_alpha, join, join_vec, no_byte, push_all, subvec,
    u16_to_dec, views_of,
};
use crate::pct::{normal, Comp};

verus! {

broadcast use vstd::seq_lib::group_seq_properties;

// ---------------------------------------------------------------------------
// Data model
// ---------------------------------------------------------------------------

/// Authority of a URL: `user:pass@host:port`.
pub struct Authority {
    pub username: Option<Vec<u8>>,
    pub password: Option<Vec<u8>>,
    pub host: Vec<u8>,
    pub port: Option<u16>,
}

/// Mathematical model of an `Authority`.
pub ghost struct AuthorityModel {
    pub username: Option<Seq<u8>>,
    pub password: Option<Seq<u8>>,
    pub host: Seq<u8>,
    pub port: Option<int>,
}

impl View for Authority {
    type V = AuthorityModel;

    open spec fn view(&self) -> AuthorityModel {
        AuthorityModel {
            username: match self.username {
                Some(u) => Some(u@),
                None => None,
            },
            password: match self.password {
                Some(p) => Some(p@),
                None => None,
            },
            host: self.host@,
            port: match self.port {
                Some(p) => Some(p as int),
                None => None,
            },
        }
    }
}

/// A parsed URL: the normalized representation every operation works on.
pub struct Url {
    pub scheme: Vec<u8>,
    pub authority: Option<Authority>,
    /// Whether the path is absolute; always true when an authority is
    /// present.
    pub path_abs: bool,
    /// Path segments, each percent-normalized.  The root path `/` is the
    /// empty segment list with `path_abs` set.
    pub segments: Vec<Vec<u8>>,
    pub query: Option<Vec<u8>>,
    pub fragment: Option<Vec<u8>>,
}

/// Mathematical model of a `Url`.
pub ghost struct UrlModel {
    pub scheme: Seq<u8>,
    pub authority: Option<AuthorityModel>,
    pub path_abs: bool,
    pub segments: Seq<Seq<u8>>,
    pub query: Option<Seq<u8>>,
    pub fragment: Option<Seq<u8>>,
}

impl View for Url {
    type V = UrlModel;

    open spec fn view(&self) -> UrlModel {
        UrlModel {
            scheme: self.scheme@,
            authority: match self.authority {
                Some(a) => Some(a@),
                None => None,
            },
            path_abs: self.path_abs,
            segments: views_of(self.segments@),
            query: match self.query {
                Some(q) => Some(q@),
                None => None,
            },
            fragment: match self.fragment {
                Some(f) => Some(f@),
                None => None,
            },
        }
    }
}

// ---------------------------------------------------------------------------
// Well-formedness
// ---------------------------------------------------------------------------

/// A byte of a scheme after its first letter.
pub open spec fn is_scheme_char(b: u8) -> bool {
    is_alpha(b) || is_digit(b) || b == 0x2b || b == 0x2d || b == 0x2e
}

/// Scheme token grammar, ignoring letter case.
pub open spec fn valid_scheme_ci(s: Seq<u8>) -> bool {
    s.len() > 0 && is_alpha(s[0]) && forall|i: int|
        1 <= i < s.len() ==> is_scheme_char(#[trigger] s[i])
}

/// Scheme token grammar in stored form: lowercase throughout.
pub open spec fn valid_scheme(s: Seq<u8>) -> bool {
    valid_scheme_ci(s) && forall|i: int| 0 <= i < s.len() ==> !is_upper_alpha(#[trigger] s[i])
}

/// Host grammar: non-empty, free of the authority and path delimiters; a
/// host starting with `[` is a bracketed literal whose only `]` is its last
/// byte; any other host holds no `:` (that byte separates the port).
pub open spec fn valid_host(h: Seq<u8>) -> bool {
    h.len() > 0 && no_byte(h, 0x2f) && no_byte(h, 0x3f) && no_byte(h, 0x23) && no_byte(h, 0x40)
        && if h[0] == 0x5b {
        h.len() >= 2 && h.last() == 0x5d && forall|i: int|
            1 <= i < h.len() - 1 ==> #[trigger] h[i] != 0x5d
    } else {
        no_byte(h, 0x3a)
    }
}

/// Well-formed authority: normalized userinfo, valid host, port in range;
/// a password never stands without a username.
pub open spec fn wf_authority(a: AuthorityModel) -> bool {
    &&& match a.username {
        Some(u) => normal(u, Comp::User),
        None => true,
    }
    &&& match a.password {
        Some(p) => normal(p, Comp::Pass),
        None => true,
    }
    &&& (a.password.is_some() ==> a.username.is_some())
    &&& valid_host(a.host)
    &&& match a.port {
        Some(p) => 0 <= p <= 65535,
        None => true,
    }
}

/// Well-formed URL value: the invariant every operation of this library
/// preserves, and exactly what the parser produces.  It guarantees that
/// serialization is injective and re-parses to the same value.
pub open spec fn wf(u: UrlModel) -> bool {
    &&& valid_scheme(u.scheme)
    &&& match u.authority {
        Some(a) => wf_authority(a) && u.path_abs,
        None => true,
    }
    &&& forall|i: int| 0 <= i < u.segments.len() ==> normal(#[trigger] u.segments[i], Comp::Segment)
    &&& (u.segments.len() > 0 && u.authority.is_none() ==> u.segments[0].len() > 0)
    &&& !(u.segments.len() == 1 && u.segments[0].len() == 0)
    &&& match u.query {
        Some(q) => normal(q, Comp::Query),
        None => true,
    }
    &&& match u.fragment {
        Some(f) => normal(f, Comp::Fragment),
        None => true,
    }
}

// ---------------------------------------------------------------------------
// Serialization
// ---------------------------------------------------------------------------

/// View of an optional byte vector.
pub open spec fn opt_view(o: Option<Vec<u8>>) -> Option<Seq<u8>> {
    match o {
        Some(v) => Some(v@),
        None => None,
    }
}

/// The sequence an optional component stands for, empty when absent.
pub open spec fn opt_seq(o: Option<Seq<u8>>) -> Seq<u8> {
    match o {
        Some(s) => s,
        None => Seq::empty(),
    }
}

/// Does the authority carry a userinfo part?
pub open spec fn has_userinfo(a: AuthorityModel) -> bool {
    a.username.is_some() || a.password.is_some()
}

/// `user[:pass]@` — only present when a username or password is set.
pub open spec fn ser_userinfo(a: AuthorityModel) -> Seq<u8> {
    opt_seq(a.username) + (match a.password {
        Some(p) => seq![0x3au8] + p,
        None => Seq::empty(),
    }) + seq![0x40u8]
}

/// Serialized authority.
pub open spec fn ser_auth(a: AuthorityModel) -> Seq<u8> {
    (if has_userinfo(a) {
        ser_userinfo(a)
    } else {
        Seq::empty()
    }) + a.host + (match a.port {
        Some(p) => seq![0x3au8] + dec_digits(p),
        None => Seq::empty(),
    })
}

/// Serialized path: `/`-joined segments, with a leading slash when the path
/// is absolute.
pub open spec fn ser_path(u: UrlModel) -> Seq<u8> {
    (if u.authority.is_some() || u.path_abs {
        seq![0x2fu8]
    } else {
        Seq::empty()
    }) + join(u.segments, 0x2f)
}

/// Canonical string form of a URL value.
pub open spec fn ser(u: UrlModel) -> Seq<u8> {
    u.scheme + seq![0x3au8] + (match u.authority {
        Some(a) => seq![0x2fu8, 0x2fu8] + ser_auth(a),
        None => Seq::empty(),
    }) + ser_path(u) + (match u.query {
        Some(q) => seq![0x3fu8] + q,
        None => Seq::empty(),
    }) + (match u.fragment {
        Some(f) => seq![0x23u8] + f,
        None => Seq::empty(),
    })
}

/// Serialize a URL value into its canonical string form.
pub fn serialize(u: &Url) -> (r: Vec<u8>)
    ensures
        r@ == ser(u@),
{
    let mut r: Vec<u8> = Vec::new();
    push_all(&mut r, &u.scheme);
    r.push(0x3a);
    proof {
        assert(r@ =~= u@.scheme + seq![0x3au8]);
    }
    match &u.authority {
        Some(a) => {
            r.push(0x2f);
            r.push(0x2f);
            match &a.username {
                Some(un) => push_all(&mut r, un),
                None => (),
            }
            match &a.password {
                Some(pw) => {
                    r.push(0x3a);
                    push_all(&mut r, pw);
                },
                None => (),
            }
            if a.username.is_some() || a.password.is_some() {
                r.push(0x40);
            }
            proof {
                assert(r@ =~= u@.scheme + seq![0x3au8] + seq![0x2fu8, 0x2fu8] + (if has_userinfo(
                    a@,
                ) {
                    ser_userinfo(a@)
                } else {
                    Seq::<u8>::empty()
                }));
            }
            push_all(&mut r, &a.host);
            match a.port {
                Some(p) => {
                    r.push(0x3a);
                    let d = u16_to_dec(p);
                    push_all(&mut r, &d);
                },
                None => (),
            }
            proof {
                assert(r@ =~= u@.scheme + seq![0x3au8] + seq![0x2fu8, 0x2fu8] + ser_auth(a@));
            }
        },
        None => (),
    }
    if u.authority.is_some() || u.path_abs {
        r.push(0x2f);
    }
    let joined = join_vec(&u.segments, 0x2f);
    push_all(&mut r, &joined);
    proof {
        assert(r@ =~= u@.scheme + seq![0x3au8] + (match u@.authority {
            Some(a) => seq![0x2fu8, 0x2fu8] + ser_auth(a),
            None => Seq::<u8>::empty(),
        }) + ser_path(u@));
    }
    match &u.query {
        Some(q) => {
            r.push(0x3f);
            push_all(&mut r, q);
        },
        None => (),
    }
    match &u.fragment {
        Some(f) => {
            r.push(0x23);
            push_all(&mut r, f);
        },
        None => (),
    }
    proof {
        assert(r@ =~= ser(u@));
    }
    r
}

// ---------------------------------------------------------------------------
// Copying helpers
// ---------------------------------------------------------------------------

/// Copy a byte vector.
pub fn copy_vec(v: &Vec<u8>) -> (r: Vec<u8>)
    ensures
        r@ == v@,
{
    let r = subvec(v, 0, v.len());
    proof {
        assert(v@.subrange(0, v@.len() as int) =~= v@);
    }
    r
}

/// Copy an optional byte vector.
pub fn copy_opt_vec(v: &Option<Vec<u8>>) -> (r: Option<Vec<u8>>)
    ensures
        match r {
            Some(s) => v matches Some(o) && s@ == o@,
            None => v is None,
        },
{
    match v {
        Some(s) => Some(copy_vec(s)),
        None => None,
    }
}

/// Copy a segment list.
pub fn copy_segments(v: &Vec<Vec<u8>>) -> (r: Vec<Vec<u8>>)
    ensures
        views_of(r@) == views_of(v@),
{
    let mut r: Vec<Vec<u8>> = Vec::new();
    let mut i: usize = 0;
    while i < v.len()
        invariant
            0 <= i <= v@.len(),
            r@.len() == i,
            forall|t: int| 0 <= t < i ==> #[trigger] r@[t]@ == v@[t]@,
        decreases v@.len() - i,
    {
        let s = copy_vec(&v[i]);
        r.push(s);
        i += 1;
    }
    proof {
        assert(views_of(r@) =~= views_of(v@));
    }
    r
}

/// Copy an authority.
pub fn copy_authority(a: &Authority) -> (r: Authority)
    ensures
        r@ == a@,
{
    Authority {
        username: copy_opt_vec(&a.username),
        password: copy_opt_vec(&a.password),
        host: copy_vec(&a.host),
        port: a.port,
    }
}

/// Copy a URL value.
pub fn copy_url(u: &Url) -> (r: Url)
    ensures
        r@ == u@,
{
    Url {
        scheme: copy_vec(&u.scheme),
        authority: match &u.authority {
            Some(a) => Some(copy_authority(a)),
            None => None,
        },
        path_abs: u.path_abs,
        segments: copy_segments(&u.segments),
        query: copy_opt_vec(&u.query),
        fragment: copy_opt_vec(&u.fragment),
    }
}

} // verus!
