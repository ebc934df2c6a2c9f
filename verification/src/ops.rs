use vstd::prelude::*;
use crate::bytes::{lower, views_of};
use crate::model::{
    copy_authority, copy_opt_vec, copy_segments, copy_vec, opt_view, valid_host, valid_scheme_ci,
    wf, Authority, AuthorityModel, Url, UrlModel,
};
use crate::parse::{check_host, check_scheme_ci, lemma_lower_scheme, lemma_parse_path_wf,
    parse_path, parse_path_vec};
use crate::pct::{norm, normal, normalize, Comp};
use crate::resolve::canon_segs;
use crate::Error;

verus! {

broadcast use vstd::seq_lib::group_seq_properties;

// ---------------------------------------------------------------------------
// Path trimming
// ---------------------------------------------------------------------------

/// The URL after removing the last `n` path segments, clamped at an empty
/// path; query and fragment are untouched.
pub open spec fn trim_model(u: UrlModel, n: int) -> UrlModel {
    let keep = if n <= u.segments.len() {
        u.segments.len() - n
    } else {
        0
    };
    UrlModel { segments: canon_segs(u.segments.take(keep)), ..u }
}

/// Remove the last `count` path segments.  Fails with `InvalidArgument`
/// exactly when the URL's path is not absolute (a URL of the `scheme:opaque`
/// kind has no trimmable path); trimming more segments than the path has
/// merely empties it.
pub fn trim(url: &Url, count: usize) -> (r: Result<Url, Error>)
    requires
        wf(url@),
    ensures
        match r {
            Ok(u) => url@.path_abs && wf(u@) && u@ == trim_model(url@, count as int),
            Err(e) => !url@.path_abs && e == Error::InvalidArgument,
        },
{
    if !url.path_abs {
        return Err(Error::InvalidArgument);
    }
    let mut segs = copy_segments(&url.segments);
    let keep: usize = if count <= segs.len() {
        segs.len() - count
    } else {
        0
    };
    let ghost pre = segs@;
    segs.truncate(keep);
    proof {
        assert(segs@ == pre.take(keep as int));
        assert(views_of(segs@) =~= url@.segments.take(keep as int));
    }
    let segs2: Vec<Vec<u8>> = if segs.len() == 1 && segs[0].len() == 0 {
        Vec::new()
    } else {
        segs
    };
    proof {
        if views_of(segs2@).len() == 1 {
            assert(views_of(segs2@)[0] == segs2@[0]@);
        }
        assert(views_of(segs2@) =~= canon_segs(url@.segments.take(
            if count as int <= url@.segments.len() {
                url@.segments.len() - count as int
            } else {
                0
            },
        )));
    }
    let u = Url {
        scheme: copy_vec(&url.scheme),
        authority: match &url.authority {
            Some(a) => Some(copy_authority(a)),
            None => None,
        },
        path_abs: url.path_abs,
        segments: segs2,
        query: copy_opt_vec(&url.query),
        fragment: copy_opt_vec(&url.fragment),
    };
    proof {
        let tm = trim_model(url@, count as int);
        assert forall|i: int| 0 <= i < u@.segments.len() implies normal(
            #[trigger] u@.segments[i],
            Comp::Segment,
        ) by {
            if tm.segments.len() == url@.segments.take(tm.segments.len() as int).len() {
            }
            assert(u@.segments[i] == url@.segments[i]);
        }
        assert(u@ == tm);
        assert(wf(u@));
    }
    Ok(u)
}

/// Trimming at least as many segments as the path holds empties it, and
/// trimming one more changes nothing further.
pub proof fn lemma_trim_idempotent(u: UrlModel, n: int)
    requires
        wf(u),
        n >= u.segments.len(),
    ensures
        trim_model(u, n).segments == Seq::<Seq<u8>>::empty(),
        trim_model(u, n + 1) == trim_model(u, n),
{
    assert(u.segments.take(0) =~= Seq::<Seq<u8>>::empty());
}

// ---------------------------------------------------------------------------
// Component rewriting
// ---------------------------------------------------------------------------

/// Optional replacements for individual URL components, applied in a fixed
/// order: scheme, host, username, password, path, query, fragment.
pub struct Overrides {
    pub scheme: Option<Vec<u8>>,
    pub host: Option<Vec<u8>>,
    pub username: Option<Vec<u8>>,
    pub password: Option<Vec<u8>>,
    pub path: Option<Vec<u8>>,
    pub query: Option<Vec<u8>>,
    pub fragment: Option<Vec<u8>>,
}

/// Mathematical model of `Overrides`.
pub ghost struct OverridesModel {
    pub scheme: Option<Seq<u8>>,
    pub host: Option<Seq<u8>>,
    pub username: Option<Seq<u8>>,
    pub password: Option<Seq<u8>>,
    pub path: Option<Seq<u8>>,
    pub query: Option<Seq<u8>>,
    pub fragment: Option<Seq<u8>>,
}

impl View for Overrides {
    type V = OverridesModel;

    open spec fn view(&self) -> OverridesModel {
        OverridesModel {
            scheme: opt_view(self.scheme),
            host: opt_view(self.host),
            username: opt_view(self.username),
            password: opt_view(self.password),
            path: opt_view(self.path),
            query: opt_view(self.query),
            fragment: opt_view(self.fragment),
        }
    }
}

/// Drop leading empty segments, so a path set on a URL without an authority
/// cannot masquerade as an authority on the next parse.
pub open spec fn drop_leading_empty(segs: Seq<Seq<u8>>) -> Seq<Seq<u8>>
    decreases segs.len(),
{
    if segs.len() > 0 && segs[0].len() == 0 {
        drop_leading_empty(segs.skip(1))
    } else {
        segs
    }
}

/// The scheme override, lowercased.
pub open spec fn apply_scheme(u: UrlModel, o: OverridesModel) -> UrlModel {
    match o.scheme {
        Some(s) => UrlModel { scheme: lower(s), ..u },
        None => u,
    }
}

/// The host override; setting a host on a URL without an authority creates
/// one, and makes the path absolute.
pub open spec fn apply_host(u: UrlModel, o: OverridesModel) -> UrlModel {
    match o.host {
        Some(h) => match u.authority {
            Some(a) => UrlModel { authority: Some(AuthorityModel { host: h, ..a }), ..u },
            None => UrlModel {
                authority: Some(
                    AuthorityModel { username: None, password: None, host: h, port: None },
                ),
                path_abs: true,
                ..u
            },
        },
        None => u,
    }
}

/// The username override, percent-normalized.
pub open spec fn apply_username(u: UrlModel, o: OverridesModel) -> UrlModel {
    match o.username {
        Some(n) => match u.authority {
            Some(a) => UrlModel {
                authority: Some(AuthorityModel { username: Some(norm(n, Comp::User)), ..a }),
                ..u
            },
            None => u,
        },
        None => u,
    }
}

/// The password override, percent-normalized; a username is materialized as
/// empty when none is present.
pub open spec fn apply_password(u: UrlModel, o: OverridesModel) -> UrlModel {
    match o.password {
        Some(p) => match u.authority {
            Some(a) => UrlModel {
                authority: Some(
                    AuthorityModel {
                        username: match a.username {
                            Some(n) => Some(n),
                            None => Some(Seq::empty()),
                        },
                        password: Some(norm(p, Comp::Pass)),
                        ..a
                    },
                ),
                ..u
            },
            None => u,
        },
        None => u,
    }
}

/// The path override, re-parsed and normalized like a parsed path.
pub open spec fn apply_path(u: UrlModel, o: OverridesModel) -> UrlModel {
    match o.path {
        Some(p) => {
            let pa = parse_path(p);
            if u.authority.is_some() {
                UrlModel { path_abs: true, segments: pa.1, ..u }
            } else {
                UrlModel { path_abs: pa.0, segments: drop_leading_empty(pa.1), ..u }
            }
        },
        None => u,
    }
}

/// The query override, percent-normalized.
pub open spec fn apply_query(u: UrlModel, o: OverridesModel) -> UrlModel {
    match o.query {
        Some(q) => UrlModel { query: Some(norm(q, Comp::Query)), ..u },
        None => u,
    }
}

/// The fragment override, percent-normalized.
pub open spec fn apply_fragment(u: UrlModel, o: OverridesModel) -> UrlModel {
    match o.fragment {
        Some(f) => UrlModel { fragment: Some(norm(f, Comp::Fragment)), ..u },
        None => u,
    }
}

/// The rewritten URL, or the first failing validation: an ill-formed scheme
/// override is `InvalidScheme`, an ill-formed host override `InvalidHost`,
/// and a username or password override on a URL that still has no authority
/// `InvalidArgument`.
pub open spec fn rewrite_model(u: UrlModel, o: OverridesModel) -> Result<UrlModel, Error> {
    if o.scheme matches Some(s) && !valid_scheme_ci(s) {
        Err(Error::InvalidScheme)
    } else if o.host matches Some(h) && !valid_host(h) {
        Err(Error::InvalidHost)
    } else if (o.username.is_some() || o.password.is_some()) && apply_host(
        apply_scheme(u, o),
        o,
    ).authority.is_none() {
        Err(Error::InvalidArgument)
    } else {
        Ok(
            apply_fragment(
                apply_query(
                    apply_path(
                        apply_password(apply_username(apply_host(apply_scheme(u, o), o), o), o),
                        o,
                    ),
                    o,
                ),
                o,
            ),
        )
    }
}

/// Drop leading empty segments of a segment vector.
fn drop_leading_empty_vec(segs: Vec<Vec<u8>>) -> (r: Vec<Vec<u8>>)
    ensures
        views_of(r@) == drop_leading_empty(views_of(segs@)),
    decreases segs@.len(),
{
    if segs.len() > 0 && segs[0].len() == 0 {
        let mut segs2 = segs;
        let ghost pre = segs2@;
        segs2.remove(0);
        proof {
            assert(segs2@ =~= pre.skip(1));
            assert(views_of(segs2@) =~= views_of(pre).skip(1));
        }
        drop_leading_empty_vec(segs2)
    } else {
        proof {
            if segs@.len() > 0 {
                assert(views_of(segs@)[0] == segs@[0]@);
            }
        }
        segs
    }
}

/// Apply a set of component overrides, each validated, in the fixed order
/// scheme, host, username, password, path, query, fragment.
pub fn rewrite(url: &Url, ov: &Overrides) -> (r: Result<Url, Error>)
    requires
        wf(url@),
    ensures
        match r {
            Ok(u) => wf(u@) && rewrite_model(url@, ov@) == Ok::<UrlModel, Error>(u@),
            Err(e) => rewrite_model(url@, ov@) == Err::<UrlModel, Error>(e),
        },
{
    let mut u = crate::model::copy_url(url);
    // scheme
    match &ov.scheme {
        Some(s) => {
            if !check_scheme_ci(s) {
                return Err(Error::InvalidScheme);
            }
            proof {
                lemma_lower_scheme(s@);
            }
            u = Url { scheme: crate::bytes::lower_vec(s), ..u };
        },
        None => (),
    }
    proof {
        assert(u@ == apply_scheme(url@, ov@));
    }
    // host
    match &ov.host {
        Some(h) => {
            if !check_host(h) {
                return Err(Error::InvalidHost);
            }
            match u.authority {
                Some(a) => {
                    u = Url {
                        authority: Some(Authority { host: copy_vec(h), ..a }),
                        ..u
                    };
                },
                None => {
                    u = Url {
                        authority: Some(
                            Authority {
                                username: None,
                                password: None,
                                host: copy_vec(h),
                                port: None,
                            },
                        ),
                        path_abs: true,
                        ..u
                    };
                },
            }
        },
        None => (),
    }
    proof {
        assert(u@ == apply_host(apply_scheme(url@, ov@), ov@));
    }
    // username and password need an authority
    if (ov.username.is_some() || ov.password.is_some()) && u.authority.is_none() {
        return Err(Error::InvalidArgument);
    }
    match &ov.username {
        Some(n) => {
            match u.authority {
                Some(a) => {
                    u = Url {
                        authority: Some(
                            Authority { username: Some(normalize(n, Comp::User)), ..a },
                        ),
                        ..u
                    };
                },
                None => (),
            }
        },
        None => (),
    }
    proof {
        assert(u@ == apply_username(apply_host(apply_scheme(url@, ov@), ov@), ov@));
    }
    match &ov.password {
        Some(p) => {
            match u.authority {
                Some(a) => {
                    let un: Option<Vec<u8>> = match a.username {
                        Some(n) => Some(n),
                        None => Some(Vec::new()),
                    };
                    u = Url {
                        authority: Some(
                            Authority {
                                username: un,
                                password: Some(normalize(p, Comp::Pass)),
                                ..a
                            },
                        ),
                        ..u
                    };
                },
                None => (),
            }
        },
        None => (),
    }
    proof {
        assert(u@ == apply_password(
            apply_username(apply_host(apply_scheme(url@, ov@), ov@), ov@),
            ov@,
        ));
    }
    let ghost u4 = u@;
    // path
    match &ov.path {
        Some(p) => {
            let pa = parse_path_vec(p);
            proof {
                lemma_parse_path_wf(p@);
            }
            if u.authority.is_some() {
                u = Url { path_abs: true, segments: pa.1, ..u };
            } else {
                let segs = drop_leading_empty_vec(pa.1);
                u = Url { path_abs: pa.0, segments: segs, ..u };
            }
        },
        None => (),
    }
    proof {
        assert(u@ == apply_path(u4, ov@));
    }
    // query and fragment
    match &ov.query {
        Some(q) => {
            u = Url { query: Some(normalize(q, Comp::Query)), ..u };
        },
        None => (),
    }
    match &ov.fragment {
        Some(f) => {
            u = Url { fragment: Some(normalize(f, Comp::Fragment)), ..u };
        },
        None => (),
    }
    proof {
        assert(u@ == apply_fragment(apply_query(apply_path(u4, ov@), ov@), ov@));
        assert(rewrite_model(url@, ov@) == Ok::<UrlModel, Error>(u@));
        lemma_rewrite_wf(url@, ov@);
    }
    Ok(u)
}

/// A successful rewrite preserves well-formedness.
pub proof fn lemma_rewrite_wf(u: UrlModel, o: OverridesModel)
    requires
        wf(u),
    ensures
        match rewrite_model(u, o) {
            Ok(u2) => wf(u2),
            Err(e) => true,
        },
{
    match rewrite_model(u, o) {
        Ok(u2) => {
            let u1 = apply_scheme(u, o);
            match o.scheme {
                Some(s) => {
                    lemma_lower_scheme(s);
                },
                None => {},
            }
            let ua = apply_host(u1, o);
            let ub = apply_username(ua, o);
            match o.username {
                Some(n) => {
                    crate::pct::lemma_norm_normal(n, Comp::User);
                },
                None => {},
            }
            let uc = apply_password(ub, o);
            match o.password {
                Some(p) => {
                    crate::pct::lemma_norm_normal(p, Comp::Pass);
                },
                None => {},
            }
            let ud = apply_path(uc, o);
            match o.path {
                Some(p) => {
                    lemma_parse_path_wf(p);
                    lemma_drop_leading_wf(parse_path(p).1);
                },
                None => {},
            }
            let ue = apply_query(ud, o);
            match o.query {
                Some(q) => {
                    crate::pct::lemma_norm_normal(q, Comp::Query);
                },
                None => {},
            }
            match o.fragment {
                Some(f) => {
                    crate::pct::lemma_norm_normal(f, Comp::Fragment);
                },
                None => {},
            }
            assert(wf(u2));
        },
        Err(e) => {},
    }
}

/// Dropping leading empty segments keeps the remaining ones intact, and the
/// first survivor is non-empty.
pub proof fn lemma_drop_leading_wf(segs: Seq<Seq<u8>>)
    ensures
        drop_leading_empty(segs).len() > 0 ==> drop_leading_empty(segs)[0].len() > 0,
        forall|i: int|
            0 <= i < drop_leading_empty(segs).len() ==> (exists|j: int|
                0 <= j < segs.len() && #[trigger] drop_leading_empty(segs)[i] == segs[j]),
    decreases segs.len(),
{
    if segs.len() > 0 && segs[0].len() == 0 {
        lemma_drop_leading_wf(segs.skip(1));
        assert forall|i: int| 0 <= i < drop_leading_empty(segs).len() implies (exists|j: int|
            0 <= j < segs.len() && #[trigger] drop_leading_empty(segs)[i] == segs[j]) by {
            let r = drop_leading_empty(segs);
            assert(r == drop_leading_empty(segs.skip(1)));
            let j0 = choose|j: int|
                0 <= j < segs.skip(1).len() && #[trigger] drop_leading_empty(segs.skip(1))[i]
                    == segs.skip(1)[j];
            assert(segs.skip(1)[j0] == segs[j0 + 1]);
        }
    }
}

} // verus!
