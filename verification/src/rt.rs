use vstd::prelude::*;
use crate::bytes::{
    find, is_alpha, is_digit, is_graphic, is_space, is_upper_alpha, join, lemma_dec_digits,
    lemma_find_at, lemma_find_none, lemma_split_join, lower, no_byte, split, to_lower,
};
use crate::model::{
    has_userinfo, opt_seq, ser, ser_auth, ser_path, ser_userinfo, valid_scheme_ci, wf,
    wf_authority, UrlModel,
};
use crate::parse::{
    auth_end, is_auth_delim, is_path_delim, lemma_auth_end_at, lemma_path_end_at, lemma_trim_graphic,
    norm_segs, parse_authority, parse_path, parse_pqf, parse_qf, parse_rest, parse_url,
    parse_userinfo, path_end, split_hostport, split_userinfo, trim_ws,
};
use crate::pct::{allowed, lemma_normal_bytes, lemma_normal_id, normal, Comp};

verus! {

broadcast use vstd::seq_lib::group_seq_properties;

// ---------------------------------------------------------------------------
// Small helpers
// ---------------------------------------------------------------------------

/// A sequence with no uppercase letters is unchanged by lowercasing.
pub proof fn lemma_lower_id(s: Seq<u8>)
    requires
        forall|i: int| 0 <= i < s.len() ==> !is_upper_alpha(#[trigger] s[i]),
    ensures
        lower(s) == s,
{
    assert forall|i: int| 0 <= i < s.len() implies lower(s)[i] == s[i] by {
        assert(lower(s)[i] == to_lower(s[i]));
    }
    assert(lower(s) =~= s);
}

/// A normal component contains no byte that its component refuses.
pub proof fn lemma_normal_excludes(s: Seq<u8>, c: Comp, b: u8)
    requires
        normal(s, c),
        !allowed(c, b),
        b != 0x25,
    ensures
        no_byte(s, b),
{
    lemma_normal_bytes(s, c);
}

/// Concatenation preserves byte exclusion.
pub proof fn lemma_no_byte_concat(a: Seq<u8>, b: Seq<u8>, c: u8)
    requires
        no_byte(a, c),
        no_byte(b, c),
    ensures
        no_byte(a + b, c),
{
    assert forall|i: int| 0 <= i < (a + b).len() implies (a + b)[i] != c by {
        if i < a.len() {
            assert((a + b)[i] == a[i]);
        } else {
            assert((a + b)[i] == b[i - a.len()]);
        }
    }
}

/// A join of parts excluding a byte other than the separator also excludes
/// it.
pub proof fn lemma_join_no_byte(parts: Seq<Seq<u8>>, sep: u8, c: u8)
    requires
        c != sep,
        forall|k: int| 0 <= k < parts.len() ==> no_byte(#[trigger] parts[k], c),
    ensures
        no_byte(join(parts, sep), c),
    decreases parts.len(),
{
    if parts.len() == 0 {
    } else if parts.len() == 1 {
    } else {
        assert forall|k: int| 0 <= k < parts.skip(1).len() implies no_byte(
            #[trigger] parts.skip(1)[k],
            c,
        ) by {
            assert(parts.skip(1)[k] == parts[k + 1]);
        }
        lemma_join_no_byte(parts.skip(1), sep, c);
        lemma_no_byte_concat(parts[0], seq![sep], c);
        lemma_no_byte_concat(parts[0] + seq![sep], join(parts.skip(1), sep), c);
        assert(join(parts, sep) =~= (parts[0] + seq![sep]) + join(parts.skip(1), sep));
    }
}

/// A join of all-graphic parts with a graphic separator is all graphic.
pub proof fn lemma_join_graphic(parts: Seq<Seq<u8>>, sep: u8)
    requires
        is_graphic(sep),
        forall|k: int, j: int|
            0 <= k < parts.len() && 0 <= j < parts[k].len() ==> is_graphic(#[trigger] parts[k][j]),
    ensures
        forall|i: int| 0 <= i < join(parts, sep).len() ==> is_graphic(#[trigger] join(parts, sep)[i]),
    decreases parts.len(),
{
    if parts.len() <= 1 {
    } else {
        assert forall|k: int, j: int|
            0 <= k < parts.skip(1).len() && 0 <= j < parts.skip(1)[k].len() implies is_graphic(
            #[trigger] parts.skip(1)[k][j],
        ) by {
            assert(parts.skip(1)[k] == parts[k + 1]);
        }
        lemma_join_graphic(parts.skip(1), sep);
        let w = join(parts, sep);
        assert forall|i: int| 0 <= i < w.len() implies is_graphic(#[trigger] w[i]) by {
            assert(w =~= parts[0] + seq![sep] + join(parts.skip(1), sep));
            if i < parts[0].len() {
                assert(w[i] == parts[0][i]);
            } else if i == parts[0].len() {
                assert(w[i] == sep);
            } else {
                assert(w[i] == join(parts.skip(1), sep)[i - parts[0].len() - 1]);
            }
        }
    }
}

/// Normalizing already-normal segments changes nothing.
pub proof fn lemma_norm_segs_id(segs: Seq<Seq<u8>>)
    requires
        forall|i: int| 0 <= i < segs.len() ==> normal(#[trigger] segs[i], Comp::Segment),
    ensures
        norm_segs(segs) == segs,
{
    assert forall|i: int| 0 <= i < segs.len() implies norm_segs(segs)[i] == segs[i] by {
        lemma_normal_id(segs[i], Comp::Segment);
    }
    assert(norm_segs(segs) =~= segs);
}

/// Every byte of a normal component is graphic.
pub proof fn lemma_normal_graphic(s: Seq<u8>, c: Comp)
    requires
        normal(s, c),
    ensures
        forall|i: int| 0 <= i < s.len() ==> is_graphic(#[trigger] s[i]),
{
    lemma_normal_bytes(s, c);
}


// ---------------------------------------------------------------------------
// Serialized fragments used by the round-trip argument
// ---------------------------------------------------------------------------

/// `?query`, or nothing.
pub open spec fn q_part(u: UrlModel) -> Seq<u8> {
    match u.query {
        Some(q) => seq![0x3fu8] + q,
        None => Seq::empty(),
    }
}

/// `#fragment`, or nothing.
pub open spec fn f_part(u: UrlModel) -> Seq<u8> {
    match u.fragment {
        Some(f) => seq![0x23u8] + f,
        None => Seq::empty(),
    }
}

/// Path, query and fragment as serialized.
pub open spec fn pqf_str(u: UrlModel) -> Seq<u8> {
    ser_path(u) + q_part(u) + f_part(u)
}

/// `//authority`, or nothing.
pub open spec fn auth_part(u: UrlModel) -> Seq<u8> {
    match u.authority {
        Some(a) => seq![0x2fu8, 0x2fu8] + ser_auth(a),
        None => Seq::empty(),
    }
}

// ---------------------------------------------------------------------------
// Authority round trip
// ---------------------------------------------------------------------------

/// A serialized authority holds none of the bytes that end the authority
/// region.
pub proof fn lemma_ser_auth_no_delim(a: crate::model::AuthorityModel)
    requires
        wf_authority(a),
    ensures
        no_byte(ser_auth(a), 0x2f),
        no_byte(ser_auth(a), 0x3f),
        no_byte(ser_auth(a), 0x23),
{
    let ui = if has_userinfo(a) {
        ser_userinfo(a)
    } else {
        Seq::<u8>::empty()
    };
    let pp = match a.port {
        Some(p) => seq![0x3au8] + crate::bytes::dec_digits(p),
        None => Seq::<u8>::empty(),
    };
    assert forall|b: u8| b == 0x2f || b == 0x3f || b == 0x23 implies no_byte(ser_auth(a), b) by {
        if has_userinfo(a) {
            let user = opt_seq(a.username);
            lemma_normal_excludes(user, Comp::User, b);
            match a.password {
                Some(p) => {
                    lemma_normal_excludes(p, Comp::Pass, b);
                    assert(no_byte(seq![0x3au8] + p, b)) by {
                        lemma_no_byte_concat(seq![0x3au8], p, b);
                    }
                    lemma_no_byte_concat(user, seq![0x3au8] + p, b);
                },
                None => {
                    assert(user + Seq::<u8>::empty() =~= user);
                },
            }
            lemma_no_byte_concat(
                user + (match a.password {
                    Some(p) => seq![0x3au8] + p,
                    None => Seq::<u8>::empty(),
                }),
                seq![0x40u8],
                b,
            );
        }
        match a.port {
            Some(p) => {
                lemma_dec_digits(p);
                assert forall|i: int| 0 <= i < pp.len() implies pp[i] != b by {
                    if i > 0 {
                        assert(pp[i] == crate::bytes::dec_digits(p)[i - 1]);
                        assert(is_digit(crate::bytes::dec_digits(p)[i - 1]));
                    }
                }
            },
            None => {},
        }
        lemma_no_byte_concat(ui, a.host, b);
        lemma_no_byte_concat(ui + a.host, pp, b);
        assert(ser_auth(a) =~= (ui + a.host) + pp);
    }
}

/// `user[:pass]` without the trailing `@`.
pub open spec fn ui_str(a: crate::model::AuthorityModel) -> Seq<u8> {
    opt_seq(a.username) + pass_part(a)
}

/// `:pass`, or nothing.
pub open spec fn pass_part(a: crate::model::AuthorityModel) -> Seq<u8> {
    match a.password {
        Some(p) => seq![0x3au8] + p,
        None => Seq::empty(),
    }
}

/// `:port`, or nothing.
pub open spec fn port_part(a: crate::model::AuthorityModel) -> Seq<u8> {
    match a.port {
        Some(p) => seq![0x3au8] + crate::bytes::dec_digits(p),
        None => Seq::empty(),
    }
}

/// `host[:port]`.
pub open spec fn hostport_str(a: crate::model::AuthorityModel) -> Seq<u8> {
    a.host + port_part(a)
}

/// Splitting the serialized authority at `@` recovers userinfo and
/// host/port.
#[verifier::spinoff_prover]
pub proof fn lemma_auth_ui(a: crate::model::AuthorityModel)
    requires
        wf_authority(a),
    ensures
        split_userinfo(ser_auth(a)) == (
            if has_userinfo(a) {
                Some(ui_str(a))
            } else {
                None::<Seq<u8>>
            },
            hostport_str(a),
        ),
{
    let s = ser_auth(a);
    let hostport = hostport_str(a);
    if has_userinfo(a) {
        let user = opt_seq(a.username);
        let passpart = pass_part(a);
        let ui = ui_str(a);
        assert(s =~= ui + seq![0x40u8] + hostport);
        lemma_normal_excludes(user, Comp::User, 0x40);
        match a.password {
            Some(p) => {
                lemma_normal_excludes(p, Comp::Pass, 0x40);
            },
            None => {},
        }
        assert forall|j: int| 0 <= j < ui.len() implies s[j] != 0x40 by {
            assert(s[j] == ui[j]);
            if j < user.len() {
                assert(ui[j] == user[j]);
            } else {
                assert(ui[j] == passpart[j - user.len()]);
                if j > user.len() {
                    assert(passpart[j - user.len()] == a.password.unwrap()[j - user.len() - 1]);
                }
            }
        }
        assert(s[ui.len() as int] == 0x40);
        lemma_find_at(s, 0x40, ui.len() as int);
        assert(s.take(ui.len() as int) =~= ui);
        assert(s.skip(ui.len() as int + 1) =~= hostport);
    } else {
        assert(s =~= hostport);
        assert forall|j: int| 0 <= j < s.len() implies s[j] != 0x40 by {
            if j < a.host.len() {
                assert(s[j] == a.host[j]);
            } else {
                assert(s[j] == port_part(a)[j - a.host.len()]);
                if j - a.host.len() > 0 {
                    lemma_dec_digits(a.port.unwrap());
                    assert(port_part(a)[j - a.host.len()] == crate::bytes::dec_digits(
                        a.port.unwrap(),
                    )[j - a.host.len() - 1]);
                    assert(is_digit(crate::bytes::dec_digits(a.port.unwrap())[j - a.host.len()
                        - 1]));
                }
            }
        }
        lemma_find_none(s, 0x40);
    }
}

/// The userinfo string parses back to the username and password.
#[verifier::spinoff_prover]
pub proof fn lemma_auth_userinfo(a: crate::model::AuthorityModel)
    requires
        wf_authority(a),
        has_userinfo(a),
    ensures
        parse_userinfo(ui_str(a)) == (a.username, a.password),
{
    let user = opt_seq(a.username);
    let ui = ui_str(a);
    lemma_normal_excludes(user, Comp::User, 0x3a);
    match a.password {
        Some(p) => {
            assert forall|j: int| 0 <= j < user.len() implies ui[j] != 0x3a by {
                assert(ui[j] == user[j]);
            }
            assert(ui[user.len() as int] == pass_part(a)[0]);
            lemma_find_at(ui, 0x3a, user.len() as int);
            assert(ui.take(user.len() as int) =~= user);
            assert(ui.skip(user.len() as int + 1) =~= p);
            lemma_normal_id(user, Comp::User);
            lemma_normal_id(p, Comp::Pass);
            assert(a.username == Some(user));
        },
        None => {
            assert(ui =~= user);
            lemma_find_none(ui, 0x3a);
            lemma_normal_id(user, Comp::User);
            assert(a.username == Some(user));
        },
    }
}

/// The host/port string splits back into host and port numeral.
#[verifier::spinoff_prover]
pub proof fn lemma_auth_hostport(a: crate::model::AuthorityModel)
    requires
        wf_authority(a),
    ensures
        split_hostport(hostport_str(a)) == Some(
            (
                a.host,
                match a.port {
                    Some(p) => Some(crate::bytes::dec_digits(p)),
                    None => None::<Seq<u8>>,
                },
            ),
        ),
{
    let h = a.host;
    let hostport = hostport_str(a);
    match a.port {
        Some(p) => {
            lemma_dec_digits(p);
        },
        None => {
            assert(hostport =~= h);
        },
    }
    assert(hostport[0] == h[0]);
    if h[0] == 0x5b {
        assert(hostport[h.len() - 1] == h[h.len() - 1]);
        assert forall|j: int| 0 <= j < h.len() - 1 implies hostport[j] != 0x5d by {
            assert(hostport[j] == h[j]);
        }
        lemma_find_at(hostport, 0x5d, h.len() - 1);
        match a.port {
            Some(p) => {
                assert(hostport[h.len() as int] == port_part(a)[0]);
                assert(hostport.take(h.len() as int) =~= h);
                assert(hostport.skip(h.len() as int + 1) =~= crate::bytes::dec_digits(p));
            },
            None => {},
        }
    } else {
        assert forall|j: int| 0 <= j < h.len() implies hostport[j] != 0x3a by {
            assert(hostport[j] == h[j]);
        }
        match a.port {
            Some(p) => {
                assert(hostport[h.len() as int] == port_part(a)[0]);
                lemma_find_at(hostport, 0x3a, h.len() as int);
                assert(hostport.take(h.len() as int) =~= h);
                assert(hostport.skip(h.len() as int + 1) =~= crate::bytes::dec_digits(p));
            },
            None => {
                lemma_find_none(hostport, 0x3a);
            },
        }
    }
}

/// Parsing undoes authority serialization.
#[verifier::spinoff_prover]
pub proof fn lemma_auth_roundtrip(a: crate::model::AuthorityModel)
    requires
        wf_authority(a),
    ensures
        parse_authority(ser_auth(a)) == Some(a),
{
    lemma_auth_ui(a);
    if has_userinfo(a) {
        lemma_auth_userinfo(a);
    }
    lemma_auth_hostport(a);
    match a.port {
        Some(p) => {
            lemma_dec_digits(p);
            assert(crate::bytes::port_of(crate::bytes::dec_digits(p)) == Some(p));
        },
        None => {},
    }
    assert(parse_authority(ser_auth(a)) == Some(a));
}

// ---------------------------------------------------------------------------
// Path, query and fragment round trip
// ---------------------------------------------------------------------------

/// Parsing undoes serialization of path, query and fragment.
#[verifier::rlimit(100)]
#[verifier::spinoff_prover]
pub proof fn lemma_pqf_roundtrip(u: UrlModel)
    requires
        wf(u),
    ensures
        parse_pqf(pqf_str(u)) == (u.path_abs, u.segments, u.query, u.fragment),
{
    let segs = u.segments;
    let p = ser_path(u);
    let q = q_part(u);
    let f = f_part(u);
    let s = pqf_str(u);
    // the path region holds no `?` or `#`
    assert forall|k: int| 0 <= k < segs.len() implies no_byte(#[trigger] segs[k], 0x3f) && no_byte(
        segs[k],
        0x23,
    ) && no_byte(segs[k], 0x2f) by {
        lemma_normal_excludes(segs[k], Comp::Segment, 0x3f);
        lemma_normal_excludes(segs[k], Comp::Segment, 0x23);
        lemma_normal_excludes(segs[k], Comp::Segment, 0x2f);
    }
    lemma_join_no_byte(segs, 0x2f, 0x3f);
    lemma_join_no_byte(segs, 0x2f, 0x23);
    let lead = if u.authority.is_some() || u.path_abs {
        seq![0x2fu8]
    } else {
        Seq::<u8>::empty()
    };
    lemma_no_byte_concat(lead, join(segs, 0x2f), 0x3f);
    lemma_no_byte_concat(lead, join(segs, 0x2f), 0x23);
    assert(no_byte(p, 0x3f) && no_byte(p, 0x23));
    // so the path region of the serialized string is exactly the path
    assert forall|j: int| 0 <= j < p.len() implies !is_path_delim(#[trigger] s[j]) by {
        assert(s[j] == p[j]);
    }
    if p.len() < s.len() {
        assert(s[p.len() as int] == (q + f)[0]);
        match u.query {
            Some(qq) => {
                assert((q + f)[0] == 0x3f);
            },
            None => {
                assert((q + f)[0] == f[0]);
                assert(f[0] == 0x23);
            },
        }
    }
    lemma_path_end_at(s, p.len() as int);
    assert(s.take(p.len() as int) =~= p);
    assert(s.skip(p.len() as int) =~= q + f);
    // the path itself parses back
    if u.authority.is_some() || u.path_abs {
        assert(u.path_abs);
        assert(p[0] == 0x2f);
        if segs.len() == 0 {
            assert(p =~= seq![0x2fu8]);
            assert(parse_path(p).1 =~= segs);
        } else {
            if segs.len() == 1 {
                assert(join(segs, 0x2f) == segs[0]);
                assert(segs[0].len() > 0);
            }
            assert(join(segs, 0x2f).len() >= 1);
            assert(p.len() > 1);
            assert(p.skip(1) =~= join(segs, 0x2f));
            lemma_split_join(segs, 0x2f);
            lemma_norm_segs_id(segs);
            assert(parse_path(p) == (true, segs));
        }
    } else {
        assert(u.authority.is_none());
        assert(p =~= join(segs, 0x2f));
        if segs.len() == 0 {
            assert(p.len() == 0);
            assert(parse_path(p).1 =~= segs);
        } else {
            assert(segs[0].len() > 0);
            if segs.len() == 1 {
                assert(join(segs, 0x2f) == segs[0]);
            } else {
                assert(join(segs, 0x2f) =~= segs[0] + seq![0x2fu8] + join(segs.skip(1), 0x2f));
                assert(join(segs, 0x2f)[0] == segs[0][0]);
            }
            assert(p[0] == segs[0][0]);
            lemma_normal_bytes(segs[0], Comp::Segment);
            assert(p[0] != 0x2f);
            lemma_split_join(segs, 0x2f);
            lemma_norm_segs_id(segs);
            assert(parse_path(p) == (false, segs));
        }
    }
    // the query/fragment tail parses back
    let t = q + f;
    match u.query {
        None => {
            match u.fragment {
                None => {
                    assert(t =~= Seq::<u8>::empty());
                },
                Some(ff) => {
                    assert(t =~= seq![0x23u8] + ff);
                    assert(t[0] == 0x23);
                    assert(t.skip(1) =~= ff);
                    lemma_normal_id(ff, Comp::Fragment);
                },
            }
        },
        Some(qq) => {
            assert(t[0] == q[0]);
            assert(q[0] == 0x3f);
            let qf2 = t.skip(1);
            lemma_normal_excludes(qq, Comp::Query, 0x23);
            match u.fragment {
                None => {
                    assert(qf2 =~= qq);
                    lemma_find_none(qf2, 0x23);
                    lemma_normal_id(qq, Comp::Query);
                    assert(parse_qf(t) == (Some(qq), None::<Seq<u8>>));
                },
                Some(ff) => {
                    assert(qf2 =~= qq + seq![0x23u8] + ff);
                    assert forall|j: int| 0 <= j < qq.len() implies qf2[j] != 0x23 by {
                        assert(qf2[j] == qq[j]);
                    }
                    assert(qf2[qq.len() as int] == 0x23);
                    lemma_find_at(qf2, 0x23, qq.len() as int);
                    assert(qf2.take(qq.len() as int) =~= qq);
                    assert(qf2.skip(qq.len() as int + 1) =~= ff);
                    lemma_normal_id(qq, Comp::Query);
                    lemma_normal_id(ff, Comp::Fragment);
                    assert(parse_qf(t) == (Some(qq), Some(ff)));
                },
            }
        },
    }
    assert(parse_pqf(s) == (u.path_abs, u.segments, u.query, u.fragment));
}

// ---------------------------------------------------------------------------
// The serialized string has graphic ends
// ---------------------------------------------------------------------------

/// A serialized well-formed URL starts and ends with non-whitespace.
#[verifier::rlimit(100)]
#[verifier::spinoff_prover]
pub proof fn lemma_ser_ends(u: UrlModel)
    requires
        wf(u),
    ensures
        ser(u).len() > 0,
        !is_space(ser(u)[0]),
        !is_space(ser(u).last()),
{
    let s = ser(u);
    let p = ser_path(u);
    let q = q_part(u);
    let f = f_part(u);
    assert(s =~= u.scheme + seq![0x3au8] + auth_part(u) + p + q + f);
    assert(s[0] == u.scheme[0]);
    assert(is_alpha(u.scheme[0]));
    let n = s.len() as int;
    if f.len() > 0 {
        assert(s[n - 1] == f[f.len() - 1]);
        match u.fragment {
            Some(ff) => {
                if ff.len() > 0 {
                    lemma_normal_graphic(ff, Comp::Fragment);
                    assert(f[f.len() - 1] == ff[ff.len() - 1]);
                } else {
                    assert(f[f.len() - 1] == 0x23);
                }
            },
            None => {},
        }
    } else if q.len() > 0 {
        assert(s[n - 1] == q[q.len() - 1]);
        match u.query {
            Some(qq) => {
                if qq.len() > 0 {
                    lemma_normal_graphic(qq, Comp::Query);
                    assert(q[q.len() - 1] == qq[qq.len() - 1]);
                } else {
                    assert(q[q.len() - 1] == 0x3f);
                }
            },
            None => {},
        }
    } else if p.len() > 0 {
        assert(s[n - 1] == p[p.len() - 1]);
        assert forall|k: int, j: int|
            0 <= k < u.segments.len() && 0 <= j < u.segments[k].len() implies is_graphic(
            #[trigger] u.segments[k][j],
        ) by {
            lemma_normal_graphic(u.segments[k], Comp::Segment);
        }
        lemma_join_graphic(u.segments, 0x2f);
        let lead = if u.authority.is_some() || u.path_abs {
            seq![0x2fu8]
        } else {
            Seq::<u8>::empty()
        };
        assert forall|j: int| 0 <= j < p.len() implies is_graphic(#[trigger] p[j]) by {
            if j < lead.len() {
                assert(p[j] == 0x2f);
            } else {
                assert(p[j] == join(u.segments, 0x2f)[j - lead.len()]);
            }
        }
    } else {
        assert(s[n - 1] == s[u.scheme.len() as int]);
        assert(s[u.scheme.len() as int] == 0x3a) by {
            assert(auth_part(u).len() == 0 || p.len() > 0);
        }
    }
}

// ---------------------------------------------------------------------------
// The round trip itself
// ---------------------------------------------------------------------------

/// When there is no authority, the serialized remainder cannot begin with
/// `//`.
#[verifier::rlimit(100)]
#[verifier::spinoff_prover]
pub proof fn lemma_pqf_not_slashslash(u: UrlModel)
    requires
        wf(u),
        u.authority is None,
    ensures
        !(pqf_str(u).len() >= 2 && pqf_str(u)[0] == 0x2f && pqf_str(u)[1] == 0x2f),
{
    let rest = pqf_str(u);
    let p = ser_path(u);
    if rest.len() >= 2 && rest[0] == 0x2f && rest[1] == 0x2f {
        if !u.path_abs {
            if u.segments.len() > 0 {
                assert(p =~= join(u.segments, 0x2f));
                if u.segments.len() == 1 {
                    assert(join(u.segments, 0x2f) == u.segments[0]);
                } else {
                    assert(join(u.segments, 0x2f) =~= u.segments[0] + seq![0x2fu8] + join(
                        u.segments.skip(1),
                        0x2f,
                    ));
                }
                assert(u.segments[0].len() > 0);
                assert(p[0] == u.segments[0][0]);
                lemma_normal_bytes(u.segments[0], Comp::Segment);
                assert(rest[0] == p[0]);
                assert(false);
            } else {
                assert(p.len() == 0);
                assert(rest =~= q_part(u) + f_part(u));
                match u.query {
                    Some(qq) => {
                        assert(rest[0] == 0x3f);
                    },
                    None => {
                        match u.fragment {
                            Some(ff) => {
                                assert(rest[0] == 0x23);
                            },
                            None => {
                                assert(rest.len() == 0);
                            },
                        }
                    },
                }
                assert(false);
            }
        } else {
            assert(p =~= seq![0x2fu8] + join(u.segments, 0x2f));
            if u.segments.len() == 0 {
                assert(p.len() == 1);
                assert(rest[1] == (q_part(u) + f_part(u))[0]);
                match u.query {
                    Some(qq) => {
                        assert(rest[1] == 0x3f);
                    },
                    None => {
                        match u.fragment {
                            Some(ff) => {
                                assert(rest[1] == 0x23);
                            },
                            None => {
                                assert(rest.len() == 1);
                            },
                        }
                    },
                }
                assert(false);
            } else {
                assert(u.segments[0].len() > 0);
                if u.segments.len() == 1 {
                    assert(join(u.segments, 0x2f) == u.segments[0]);
                } else {
                    assert(join(u.segments, 0x2f) =~= u.segments[0] + seq![0x2fu8] + join(
                        u.segments.skip(1),
                        0x2f,
                    ));
                }
                assert(join(u.segments, 0x2f)[0] == u.segments[0][0]);
                assert(rest[1] == p[1]);
                assert(p[1] == u.segments[0][0]);
                lemma_normal_bytes(u.segments[0], Comp::Segment);
                assert(false);
            }
        }
    }
}

/// The remainder after `scheme:` parses back to the URL's own parts.
#[verifier::rlimit(100)]
#[verifier::spinoff_prover]
pub proof fn lemma_rest_roundtrip(u: UrlModel)
    requires
        wf(u),
    ensures
        parse_rest(auth_part(u) + pqf_str(u)) == Some(
            crate::parse::RestModel {
                authority: u.authority,
                path_abs: u.path_abs,
                segments: u.segments,
                query: u.query,
                fragment: u.fragment,
            },
        ),
{
    let rest = auth_part(u) + pqf_str(u);
    lemma_pqf_roundtrip(u);
    match u.authority {
        Some(a) => {
            assert(rest =~= seq![0x2fu8, 0x2fu8] + ser_auth(a) + pqf_str(u));
            assert(rest[0] == 0x2f && rest[1] == 0x2f);
            let ar = rest.skip(2);
            assert(ar =~= ser_auth(a) + pqf_str(u));
            lemma_ser_auth_no_delim(a);
            assert forall|j: int| 0 <= j < ser_auth(a).len() implies !is_auth_delim(
                #[trigger] ar[j],
            ) by {
                assert(ar[j] == ser_auth(a)[j]);
            }
            assert(u.path_abs);
            assert(ser_path(u)[0] == 0x2f);
            assert(pqf_str(u)[0] == 0x2f);
            assert(ar[ser_auth(a).len() as int] == 0x2f);
            lemma_auth_end_at(ar, ser_auth(a).len() as int);
            assert(ar.take(ser_auth(a).len() as int) =~= ser_auth(a));
            assert(ar.skip(ser_auth(a).len() as int) =~= pqf_str(u));
            lemma_auth_roundtrip(a);
        },
        None => {
            assert(rest =~= pqf_str(u));
            lemma_pqf_not_slashslash(u);
        },
    }
}

/// The serializer is a right inverse of the parser: a well-formed URL value
/// re-parses from its own canonical string form.
#[verifier::rlimit(100)]
#[verifier::spinoff_prover]
pub proof fn lemma_url_roundtrip(u: UrlModel)
    requires
        wf(u),
    ensures
        parse_url(ser(u)) == Some(u),
{
    let s = ser(u);
    lemma_ser_ends(u);
    lemma_trim_graphic(s);
    let sch = u.scheme;
    assert(s =~= sch + (seq![0x3au8] + auth_part(u) + pqf_str(u)));
    assert forall|j: int| 0 <= j < sch.len() implies s[j] != 0x3a by {
        assert(s[j] == sch[j]);
        assert(is_alpha(sch[0]));
        if j >= 1 {
            assert(crate::model::is_scheme_char(sch[j]));
        }
    }
    assert(s[sch.len() as int] == 0x3a);
    lemma_find_at(s, 0x3a, sch.len() as int);
    assert(s.take(sch.len() as int) =~= sch);
    lemma_lower_id(sch);
    let rest = s.skip(sch.len() as int + 1);
    assert(rest =~= auth_part(u) + pqf_str(u));
    lemma_rest_roundtrip(u);
    assert(parse_url(s) == Some(u));
}

// ---------------------------------------------------------------------------
// Well-formedness of spec-level parse results
// ---------------------------------------------------------------------------

/// Whatever `parse_rest` accepts is well formed.
pub proof fn lemma_parse_rest_wf(rest: Seq<u8>)
    ensures
        match parse_rest(rest) {
            Some(m) => crate::parse::wf_rest(m),
            None => true,
        },
{
    if rest.len() >= 2 && rest[0] == 0x2f && rest[1] == 0x2f {
        let ar = rest.skip(2);
        let ae = auth_end(ar);
        crate::parse::lemma_parse_authority_wf(ar.take(ae));
        let pqf = ar.skip(ae);
        let pe = path_end(pqf);
        crate::parse::lemma_parse_path_wf(pqf.take(pe));
        crate::parse::lemma_parse_qf_wf(pqf.skip(pe));
    } else {
        let pe = path_end(rest);
        let ppart = rest.take(pe);
        crate::parse::lemma_parse_path_wf(ppart);
        crate::parse::lemma_parse_qf_wf(rest.skip(pe));
        crate::parse::lemma_path_end(rest);
        if ppart.len() >= 2 {
            assert(ppart[0] == rest[0]);
            assert(ppart[1] == rest[1]);
        }
    }
}

/// Whatever the parser accepts is well formed.
pub proof fn lemma_parse_url_wf(s: Seq<u8>)
    ensures
        match parse_url(s) {
            Some(u) => wf(u),
            None => true,
        },
{
    let t = trim_ws(s);
    match find(t, 0x3a) {
        None => {},
        Some(ci) => {
            if valid_scheme_ci(t.take(ci)) {
                lemma_parse_rest_wf(t.skip(ci + 1));
                crate::parse::lemma_lower_scheme(t.take(ci));
            }
        },
    }
}

/// Parse/serialize round trip, as a law about strings: for any string `s`
/// the parser accepts, serializing the parsed value and parsing it again
/// gives the same value — `parse(serialize(parse(s))) == parse(s)`.
pub proof fn lemma_round_trip(s: Seq<u8>)
    requires
        parse_url(s) is Some,
    ensures
        parse_url(ser(parse_url(s).unwrap())) == parse_url(s),
{
    lemma_parse_url_wf(s);
    lemma_url_roundtrip(parse_url(s).unwrap());
}

} // verus!
