use vstd::prelude::*;

mod bytes;
mod model;
mod ops;
mod parse;
mod pct;
mod query;
mod resolve;
mod rt;

pub use bytes::{
    char_count, dec_digits, dec_val, find, join, lower, no_byte, port_of, spaces, split, views_of,
};
pub use model::{
    opt_seq, serialize, opt_view, ser, ser_auth, ser_path, valid_host, valid_scheme, valid_scheme_ci, wf,
    wf_authority, Authority, AuthorityModel, Url, UrlModel,
};
pub use ops::{
    apply_fragment, apply_host, apply_password, apply_path, apply_query, apply_scheme,
    apply_username, lemma_trim_idempotent, rewrite, rewrite_model, trim, trim_model, Overrides,
    OverridesModel,
};
pub use parse::{
    parse, parse_authority, parse_pqf, parse_ref, parse_reference, parse_rest, parse_url, trim_ws,
    wf_ref, RefModel, Reference, RestModel,
};
pub use pct::{allowed, fenc, norm, normal, pdecode, Comp};
pub use query::{
    decode, enc_pair, encode, encode_model, lemma_decode_encode, merge_model, merge_params,
    padded_line, pair_of, pairs_view, qs_pairs, raw_pair, shown_value, upsert, widest_key,
    widest_key_vec,
};
pub use resolve::{lemma_resolve_identity, remove_dots, resolve, resolve_model};
pub use rt::{lemma_round_trip, lemma_url_roundtrip};

verus! {

/// Classification of a failed operation; each variant is surfaced to the
/// user as its own message by the surrounding program.
#[derive(Clone, Copy, Debug, PartialEq, Eq, Structural)]
pub enum Error {
    /// Malformed URL or query string.
    SyntaxError,
    /// Semantically invalid input, e.g. trimming a URL with no path or
    /// unbalanced key/value flags.
    InvalidArgument,
    /// Resolution was attempted against a base lacking an authority.
    MissingAuthority,
    /// A scheme override did not match the scheme token grammar.
    InvalidScheme,
    /// A host override was not a structurally valid host.
    InvalidHost,
    /// Reading the fallback input failed.
    IOFailure,
    /// The external template engine rejected the template.
    TemplateError,
}

/// The message shown for each error kind.
pub open spec fn msg_of(e: Error) -> Seq<char> {
    match e {
        Error::SyntaxError => "malformed URL or query string"@,
        Error::InvalidArgument => "invalid argument"@,
        Error::MissingAuthority => "cannot resolve against a base without an authority"@,
        Error::InvalidScheme => "cannot set scheme"@,
        Error::InvalidHost => "cannot set host"@,
        Error::IOFailure => "cannot read input"@,
        Error::TemplateError => "cannot render template"@,
    }
}

impl Error {
    /// Human-readable message for this error.
    pub fn message(&self) -> (r: &'static str)
        ensures
            r@ == msg_of(*self),
    {
        match self {
            Error::SyntaxError => "malformed URL or query string",
            Error::InvalidArgument => "invalid argument",
            Error::MissingAuthority => "cannot resolve against a base without an authority",
            Error::InvalidScheme => "cannot set scheme",
            Error::InvalidHost => "cannot set host",
            Error::IOFailure => "cannot read input",
            Error::TemplateError => "cannot render template",
        }
    }
}

// ---------------------------------------------------------------------------
// The command surface
// ---------------------------------------------------------------------------

/// One invocation of the tool, with every input already read: the
/// surrounding program supplies arguments or standard-input fallbacks as
/// plain byte strings.
pub enum Command {
    /// Resolve `url` against `base`.
    Resolve { base: Vec<u8>, url: Vec<u8> },
    /// Remove the last `count` path segments of `url`.
    Trim { count: usize, url: Vec<u8> },
    /// Apply component overrides to `url`.
    Rewrite { overrides: Overrides, url: Vec<u8> },
    /// Decode a query string; with `select`, print only the values of the
    /// chosen keys (each entry may name several keys separated by commas).
    Decode { select: Option<Vec<Vec<u8>>>, query: Vec<u8> },
    /// Encode `KEY=VALUE` tokens and explicit key/value flag lists.
    Encode { keys: Vec<Vec<u8>>, values: Vec<Vec<u8>>, pairs: Vec<Vec<u8>> },
    /// Render `url`'s components through a template.
    Format { template: Vec<u8>, url: Vec<u8> },
}

/// Top-level options: the chosen command, plus the debug switch.
pub struct Options {
    pub debug: bool,
    pub command: Command,
}

/// The fields handed to the template engine for the format command; absent
/// components render as the empty string.
pub struct FormatFields {
    pub scheme: Vec<u8>,
    pub host: Vec<u8>,
    pub username: Vec<u8>,
    pub password: Vec<u8>,
    pub path: Vec<u8>,
    pub query: Vec<u8>,
    pub fragment: Vec<u8>,
}

/// What a successful command produces: lines to print, or a template plus
/// fields for the external template engine to render.
pub enum Output {
    Lines(Vec<Vec<u8>>),
    Render { template: Vec<u8>, fields: FormatFields },
}

// ---------------------------------------------------------------------------
// Specifications of each command's output line
// ---------------------------------------------------------------------------

/// The line printed by the resolve command, or its error.
pub open spec fn resolve_line(base: Seq<u8>, reference: Seq<u8>) -> Result<Seq<u8>, Error> {
    match parse_url(base) {
        None => Err(Error::SyntaxError),
        Some(b) => match parse_ref(reference) {
            None => Err(Error::SyntaxError),
            Some(rm) => if rm.scheme.is_none() && b.authority.is_none() {
                Err(Error::MissingAuthority)
            } else {
                Ok(ser(resolve_model(b, rm)))
            },
        },
    }
}

/// The line printed by the trim command, or its error.
pub open spec fn trim_line(url: Seq<u8>, n: int) -> Result<Seq<u8>, Error> {
    match parse_url(url) {
        None => Err(Error::SyntaxError),
        Some(u) => if !u.path_abs {
            Err(Error::InvalidArgument)
        } else {
            Ok(ser(trim_model(u, n)))
        },
    }
}

/// The line printed by the rewrite command, or its error.
pub open spec fn rewrite_line(url: Seq<u8>, o: OverridesModel) -> Result<Seq<u8>, Error> {
    match parse_url(url) {
        None => Err(Error::SyntaxError),
        Some(u) => match rewrite_model(u, o) {
            Ok(u2) => Ok(ser(u2)),
            Err(e) => Err(e),
        },
    }
}

/// The line printed by the encode command, or its error.
pub open spec fn encode_line(tokens: Seq<Seq<u8>>, ks: Seq<Seq<u8>>, vs: Seq<Seq<u8>>) -> Result<
    Seq<u8>,
    Error,
> {
    if ks.len() != vs.len() {
        Err(Error::InvalidArgument)
    } else {
        Ok(encode_model(merge_model(tokens, ks, vs)))
    }
}

/// A query argument may carry a whole URL: everything up to the first `?`
/// is dropped.
pub open spec fn after_question(q: Seq<u8>) -> Seq<u8> {
    match find(q, 0x3f) {
        None => q,
        Some(i) => q.skip(i + 1),
    }
}

/// Selected keys: each select argument holds one or more keys separated by
/// commas, flattened in order.
pub open spec fn sel_keys_from(args: Seq<Seq<u8>>, i: int) -> Seq<Seq<u8>>
    decreases args.len() - i,
{
    if i < 0 || i >= args.len() {
        Seq::empty()
    } else {
        split(args[i], 0x2c) + sel_keys_from(args, i + 1)
    }
}

/// Is `k` one of the selected keys?
pub open spec fn key_selected(keys: Seq<Seq<u8>>, k: Seq<u8>) -> bool {
    exists|j: int| 0 <= j < keys.len() && keys[j] == k
}

/// The lines printed in selection mode: the value of each pair whose key
/// was selected, in order of appearance; a bare key prints an empty line.
pub open spec fn select_lines_from(
    ps: Seq<(Seq<u8>, Option<Seq<u8>>)>,
    keys: Seq<Seq<u8>>,
    i: int,
) -> Seq<Seq<u8>>
    decreases ps.len() - i,
{
    if i < 0 || i >= ps.len() {
        Seq::empty()
    } else {
        (if key_selected(keys, ps[i].0) {
            seq![shown_value(ps[i].1)]
        } else {
            Seq::empty()
        }) + select_lines_from(ps, keys, i + 1)
    }
}

/// The lines printed in listing mode: every pair as `key: value`, keys
/// right-aligned to the widest key.
pub open spec fn padded_lines_from(ps: Seq<(Seq<u8>, Option<Seq<u8>>)>, w: int, i: int) -> Seq<
    Seq<u8>,
>
    decreases ps.len() - i,
{
    if i < 0 || i >= ps.len() {
        Seq::empty()
    } else {
        seq![padded_line(ps[i], w)] + padded_lines_from(ps, w, i + 1)
    }
}

/// The lines printed by the decode command.
pub open spec fn decode_lines(q: Seq<u8>, select: Option<Seq<Seq<u8>>>) -> Seq<Seq<u8>> {
    let ps = qs_pairs(after_question(q));
    match select {
        Some(args) => select_lines_from(ps, sel_keys_from(args, 0), 0),
        None => padded_lines_from(ps, widest_key(ps), 0),
    }
}

/// View of an optional key-selection argument list.
pub open spec fn sel_view(s: Option<Vec<Vec<u8>>>) -> Option<Seq<Seq<u8>>> {
    match s {
        Some(v) => Some(views_of(v@)),
        None => None,
    }
}

/// The template fields of a URL, all as strings; absent components are
/// empty.
pub open spec fn fields_ok(u: UrlModel, f: FormatFields) -> bool {
    &&& f.scheme@ == u.scheme
    &&& f.host@ == (match u.authority {
        Some(a) => a.host,
        None => Seq::<u8>::empty(),
    })
    &&& f.username@ == (match u.authority {
        Some(a) => opt_seq(a.username),
        None => Seq::<u8>::empty(),
    })
    &&& f.password@ == (match u.authority {
        Some(a) => opt_seq(a.password),
        None => Seq::<u8>::empty(),
    })
    &&& f.path@ == ser_path(u)
    &&& f.query@ == opt_seq(u.query)
    &&& f.fragment@ == opt_seq(u.fragment)
}

// ---------------------------------------------------------------------------
// Exec helpers for the decode command
// ---------------------------------------------------------------------------

/// Drop everything up to and including the first `?`.
fn after_question_vec(q: &Vec<u8>) -> (r: Vec<u8>)
    ensures
        r@ == after_question(q@),
{
    match bytes::find_byte(q, 0x3f) {
        None => model::copy_vec(q),
        Some(i) => {
            proof {
                bytes::lemma_find(q@, 0x3f);
            }
            let n = q.len();
            let r = bytes::subvec(q, i + 1, n);
            proof {
                assert(r@ =~= q@.skip(i + 1));
            }
            r
        },
    }
}

/// Flatten the select arguments into one key list.
fn sel_keys_vec(args: &Vec<Vec<u8>>) -> (r: Vec<Vec<u8>>)
    ensures
        views_of(r@) == sel_keys_from(views_of(args@), 0),
{
    let ghost av = views_of(args@);
    let mut r: Vec<Vec<u8>> = Vec::new();
    let mut i: usize = 0;
    proof {
        assert(views_of(r@) + sel_keys_from(av, 0) =~= sel_keys_from(av, 0));
    }
    while i < args.len()
        invariant
            0 <= i <= args@.len(),
            av == views_of(args@),
            views_of(r@) + sel_keys_from(av, i as int) == sel_keys_from(av, 0),
        decreases args@.len() - i,
    {
        let parts = bytes::split_vec(&args[i], 0x2c);
        let ghost pre = r@;
        let mut k: usize = 0;
        while k < parts.len()
            invariant
                0 <= k <= parts@.len(),
                views_of(r@) == views_of(pre) + views_of(parts@).take(k as int),
            decreases parts@.len() - k,
        {
            let c = model::copy_vec(&parts[k]);
            let ghost mid = r@;
            r.push(c);
            proof {
                resolve::lemma_views_push(mid, c);
                assert(views_of(parts@).take(k + 1int) =~= views_of(parts@).take(k as int).push(
                    parts@[k as int]@,
                ));
                assert(views_of(r@) =~= views_of(pre) + views_of(parts@).take(k + 1int));
            }
            k += 1;
        }
        proof {
            assert(views_of(parts@).take(parts@.len() as int) =~= views_of(parts@));
            assert(av[i as int] == args@[i as int]@);
            assert(views_of(r@) =~= views_of(pre) + split(av[i as int], 0x2c));
            assert(views_of(pre) + (split(av[i as int], 0x2c) + sel_keys_from(av, i + 1int)) =~= (
            views_of(pre) + split(av[i as int], 0x2c)) + sel_keys_from(av, i + 1int));
        }
        i += 1;
    }
    proof {
        assert(views_of(r@) + sel_keys_from(av, args@.len() as int) =~= views_of(r@));
    }
    r
}

/// Is `k` among the selected keys?
fn contains_key(keys: &Vec<Vec<u8>>, k: &Vec<u8>) -> (r: bool)
    ensures
        r == key_selected(views_of(keys@), k@),
{
    let mut i: usize = 0;
    while i < keys.len()
        invariant
            0 <= i <= keys@.len(),
            forall|j: int| 0 <= j < i ==> views_of(keys@)[j] != k@,
        decreases keys@.len() - i,
    {
        if query::eq_vec(&keys[i], k) {
            proof {
                assert(views_of(keys@)[i as int] == k@);
            }
            return true;
        }
        proof {
            assert(views_of(keys@)[i as int] == keys@[i as int]@);
        }
        i += 1;
    }
    false
}

/// The selection-mode lines.
fn select_lines_vec(ps: &Vec<(Vec<u8>, Option<Vec<u8>>)>, keys: &Vec<Vec<u8>>) -> (r: Vec<Vec<u8>>)
    ensures
        views_of(r@) == select_lines_from(pairs_view(ps@), views_of(keys@), 0),
{
    let ghost pv = pairs_view(ps@);
    let ghost kv = views_of(keys@);
    let mut r: Vec<Vec<u8>> = Vec::new();
    let mut i: usize = 0;
    proof {
        assert(views_of(r@) + select_lines_from(pv, kv, 0) =~= select_lines_from(pv, kv, 0));
    }
    while i < ps.len()
        invariant
            0 <= i <= ps@.len(),
            pv == pairs_view(ps@),
            kv == views_of(keys@),
            views_of(r@) + select_lines_from(pv, kv, i as int) == select_lines_from(pv, kv, 0),
        decreases ps@.len() - i,
    {
        proof {
            assert(pv[i as int] == (ps@[i as int].0@, opt_view(ps@[i as int].1)));
        }
        if contains_key(keys, &ps[i].0) {
            let line: Vec<u8> = match &ps[i].1 {
                Some(v) => model::copy_vec(v),
                None => Vec::new(),
            };
            let ghost pre = r@;
            r.push(line);
            proof {
                resolve::lemma_views_push(pre, line);
                assert(line@ == shown_value(pv[i as int].1));
                assert(views_of(r@) =~= views_of(pre) + seq![shown_value(pv[i as int].1)]);
                assert(views_of(pre) + (seq![shown_value(pv[i as int].1)] + select_lines_from(
                    pv,
                    kv,
                    i + 1int,
                )) =~= (views_of(pre) + seq![shown_value(pv[i as int].1)]) + select_lines_from(
                    pv,
                    kv,
                    i + 1int,
                ));
            }
        }
        i += 1;
    }
    proof {
        assert(views_of(r@) + select_lines_from(pv, kv, ps@.len() as int) =~= views_of(r@));
    }
    r
}

/// The listing-mode lines.
fn padded_lines_vec(ps: &Vec<(Vec<u8>, Option<Vec<u8>>)>, w: usize) -> (r: Vec<Vec<u8>>)
    requires
        forall|i: int| 0 <= i < ps@.len() ==> char_count(#[trigger] pairs_view(ps@)[i].0) <= w,
    ensures
        views_of(r@) == padded_lines_from(pairs_view(ps@), w as int, 0),
{
    let ghost pv = pairs_view(ps@);
    let mut r: Vec<Vec<u8>> = Vec::new();
    let mut i: usize = 0;
    proof {
        assert(views_of(r@) + padded_lines_from(pv, w as int, 0) =~= padded_lines_from(
            pv,
            w as int,
            0,
        ));
    }
    while i < ps.len()
        invariant
            0 <= i <= ps@.len(),
            pv == pairs_view(ps@),
            forall|t: int| 0 <= t < ps@.len() ==> char_count(#[trigger] pv[t].0) <= w,
            views_of(r@) + padded_lines_from(pv, w as int, i as int) == padded_lines_from(
                pv,
                w as int,
                0,
            ),
        decreases ps@.len() - i,
    {
        proof {
            assert(pv[i as int] == (ps@[i as int].0@, opt_view(ps@[i as int].1)));
        }
        let line = query::padded_line_vec(&ps[i].0, &ps[i].1, w);
        let ghost pre = r@;
        r.push(line);
        proof {
            resolve::lemma_views_push(pre, line);
            assert(views_of(r@) =~= views_of(pre) + seq![padded_line(pv[i as int], w as int)]);
            assert(views_of(pre) + (seq![padded_line(pv[i as int], w as int)] + padded_lines_from(
                pv,
                w as int,
                i + 1int,
            )) =~= (views_of(pre) + seq![padded_line(pv[i as int], w as int)]) + padded_lines_from(
                pv,
                w as int,
                i + 1int,
            ));
        }
        i += 1;
    }
    proof {
        assert(views_of(r@) + padded_lines_from(pv, w as int, ps@.len() as int) =~= views_of(r@));
    }
    r
}

/// The template fields of a parsed URL.
pub fn format_fields(u: &Url) -> (r: FormatFields)
    ensures
        fields_ok(u@, r),
{
    let host: Vec<u8> = match &u.authority {
        Some(a) => model::copy_vec(&a.host),
        None => Vec::new(),
    };
    let username: Vec<u8> = match &u.authority {
        Some(a) => match &a.username {
            Some(n) => model::copy_vec(n),
            None => Vec::new(),
        },
        None => Vec::new(),
    };
    let password: Vec<u8> = match &u.authority {
        Some(a) => match &a.password {
            Some(p) => model::copy_vec(p),
            None => Vec::new(),
        },
        None => Vec::new(),
    };
    let mut path: Vec<u8> = Vec::new();
    if u.authority.is_some() || u.path_abs {
        path.push(0x2f);
    }
    let joined = bytes::join_vec(&u.segments, 0x2f);
    bytes::push_all(&mut path, &joined);
    proof {
        assert(path@ =~= ser_path(u@));
    }
    let query: Vec<u8> = match &u.query {
        Some(q) => model::copy_vec(q),
        None => Vec::new(),
    };
    let fragment: Vec<u8> = match &u.fragment {
        Some(f) => model::copy_vec(f),
        None => Vec::new(),
    };
    FormatFields {
        scheme: model::copy_vec(&u.scheme),
        host,
        username,
        password,
        path,
        query,
        fragment,
    }
}

// ---------------------------------------------------------------------------
// The command dispatcher
// ---------------------------------------------------------------------------

/// Run one command on its already-read inputs and produce what is to be
/// printed (or rendered).  Every line is fully determined by the command:
/// see `resolve_line`, `trim_line`, `rewrite_line`, `decode_lines`,
/// `encode_line` and `fields_ok`.
pub fn cmd(opts: Options) -> (r: Result<Output, Error>)
    ensures
        (match opts.command {
            Command::Resolve { base, url } => (match r {
                Ok(o) => (o matches Output::Lines(ls) && views_of(ls@).len() == 1 && resolve_line(
                    base@,
                    url@,
                ) == Ok::<Seq<u8>, Error>(views_of(ls@)[0])),
                Err(e) => resolve_line(base@, url@) == Err::<Seq<u8>, Error>(e),
            }),
            Command::Trim { count, url } => (match r {
                Ok(o) => (o matches Output::Lines(ls) && views_of(ls@).len() == 1 && trim_line(
                    url@,
                    count as int,
                ) == Ok::<Seq<u8>, Error>(views_of(ls@)[0])),
                Err(e) => trim_line(url@, count as int) == Err::<Seq<u8>, Error>(e),
            }),
            Command::Rewrite { overrides, url } => (match r {
                Ok(o) => (o matches Output::Lines(ls) && views_of(ls@).len() == 1 && rewrite_line(
                    url@,
                    overrides@,
                ) == Ok::<Seq<u8>, Error>(views_of(ls@)[0])),
                Err(e) => rewrite_line(url@, overrides@) == Err::<Seq<u8>, Error>(e),
            }),
            Command::Decode { select, query } => (match r {
                Ok(o) => (o matches Output::Lines(ls) && views_of(ls@) == decode_lines(
                    query@,
                    sel_view(select),
                )),
                Err(e) => false,
            }),
            Command::Encode { keys, values, pairs } => (match r {
                Ok(o) => (o matches Output::Lines(ls) && views_of(ls@).len() == 1 && encode_line(
                    views_of(pairs@),
                    views_of(keys@),
                    views_of(values@),
                ) == Ok::<Seq<u8>, Error>(views_of(ls@)[0])),
                Err(e) => encode_line(views_of(pairs@), views_of(keys@), views_of(values@))
                    == Err::<Seq<u8>, Error>(e),
            }),
            Command::Format { template, url } => (match r {
                Ok(o) => (o matches Output::Render { template: t, fields: f } && t@ == template@
                    && (parse_url(url@) matches Some(u) && fields_ok(u, f))),
                Err(e) => (parse_url(url@) is None) && e == Error::SyntaxError,
            }),
        }),
{
    match opts.command {
        Command::Resolve { base, url } => {
            let b = match parse::parse(&base) {
                Err(e) => {
                    return Err(e);
                },
                Ok(b) => b,
            };
            let resolved = match resolve::resolve(&b, &url) {
                Err(e) => {
                    return Err(e);
                },
                Ok(u) => u,
            };
            let line = model::serialize(&resolved);
            let mut ls: Vec<Vec<u8>> = Vec::new();
            ls.push(line);
            proof {
                assert(views_of(ls@)[0] == line@);
            }
            Ok(Output::Lines(ls))
        },
        Command::Trim { count, url } => {
            let u = match parse::parse(&url) {
                Err(e) => {
                    return Err(e);
                },
                Ok(u) => u,
            };
            let t = match ops::trim(&u, count) {
                Err(e) => {
                    return Err(e);
                },
                Ok(t) => t,
            };
            let line = model::serialize(&t);
            let mut ls: Vec<Vec<u8>> = Vec::new();
            ls.push(line);
            proof {
                assert(views_of(ls@)[0] == line@);
            }
            Ok(Output::Lines(ls))
        },
        Command::Rewrite { overrides, url } => {
            let u = match parse::parse(&url) {
                Err(e) => {
                    return Err(e);
                },
                Ok(u) => u,
            };
            let t = match ops::rewrite(&u, &overrides) {
                Err(e) => {
                    return Err(e);
                },
                Ok(t) => t,
            };
            let line = model::serialize(&t);
            let mut ls: Vec<Vec<u8>> = Vec::new();
            ls.push(line);
            proof {
                assert(views_of(ls@)[0] == line@);
            }
            Ok(Output::Lines(ls))
        },
        Command::Decode { select, query } => {
            let q = after_question_vec(&query);
            let ps = query::decode(&q);
            let lines: Vec<Vec<u8>> = match &select {
                Some(args) => {
                    let keys = sel_keys_vec(args);
                    select_lines_vec(&ps, &keys)
                },
                None => {
                    let w = query::widest_key_vec(&ps);
                    padded_lines_vec(&ps, w)
                },
            };
            Ok(Output::Lines(lines))
        },
        Command::Encode { keys, values, pairs } => {
            let merged = match query::merge_params(&pairs, &keys, &values) {
                Err(e) => {
                    return Err(e);
                },
                Ok(m) => m,
            };
            let line = query::encode(&merged);
            let mut ls: Vec<Vec<u8>> = Vec::new();
            ls.push(line);
            proof {
                assert(views_of(ls@)[0] == line@);
            }
            Ok(Output::Lines(ls))
        },
        Command::Format { template, url } => {
            let u = match parse::parse(&url) {
                Err(e) => {
                    return Err(e);
                },
                Ok(u) => u,
            };
            let fields = format_fields(&u);
            Ok(Output::Render { template, fields })
        },
    }
}

} // verus!
