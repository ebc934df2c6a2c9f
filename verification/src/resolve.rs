use vstd::prelude::*;
use crate::bytes::{views_of};
use crate::model::{copy_authority, copy_opt_vec, copy_segments, copy_vec, wf, Url, UrlModel};
use crate::parse::{parse_ref, parse_reference, wf_ref, RefModel};
use crate::pct::{normal, Comp};
use crate::Error;

verus! {

broadcast use vstd::seq_lib::group_seq_properties;

// ---------------------------------------------------------------------------
// Dot-segment removal
// ---------------------------------------------------------------------------

/// The path segment `.`.
pub open spec fn seg_dot() -> Seq<u8> {
    seq![0x2eu8]
}

/// The path segment `..`.
pub open spec fn seg_dotdot() -> Seq<u8> {
    seq![0x2eu8, 0x2eu8]
}

/// One step of dot-segment removal: `.` disappears, `..` cancels the
/// preceding output segment (or is dropped at the root); either leaves a
/// trailing empty segment when it ends the path.
pub open spec fn remove_dots_step(out: Seq<Seq<u8>>, s: Seq<u8>, last: bool) -> Seq<Seq<u8>> {
    if s == seg_dot() {
        if last {
            out.push(Seq::empty())
        } else {
            out
        }
    } else if s == seg_dotdot() {
        let o = if out.len() > 0 {
            out.drop_last()
        } else {
            out
        };
        if last {
            o.push(Seq::empty())
        } else {
            o
        }
    } else {
        out.push(s)
    }
}

/// Dot-segment removal from index `i` on, with the output built so far.
pub open spec fn remove_dots_from(out: Seq<Seq<u8>>, segs: Seq<Seq<u8>>, i: int) -> Seq<Seq<u8>>
    decreases segs.len() - i,
{
    if i < 0 || i >= segs.len() {
        out
    } else {
        remove_dots_from(remove_dots_step(out, segs[i], i == segs.len() - 1), segs, i + 1)
    }
}

/// The lone empty segment is the root path, whose canonical form is the
/// empty segment list.
pub open spec fn canon_segs(segs: Seq<Seq<u8>>) -> Seq<Seq<u8>> {
    if segs.len() == 1 && segs[0].len() == 0 {
        Seq::empty()
    } else {
        segs
    }
}

/// Full dot-segment removal.
pub open spec fn remove_dots(segs: Seq<Seq<u8>>) -> Seq<Seq<u8>> {
    canon_segs(remove_dots_from(Seq::empty(), segs, 0))
}

/// Views commute with push.
pub proof fn lemma_views_push(pre: Seq<Vec<u8>>, x: Vec<u8>)
    ensures
        views_of(pre.push(x)) == views_of(pre).push(x@),
{
    assert(views_of(pre.push(x)) =~= views_of(pre).push(x@));
}

/// Views commute with dropping the last element.
pub proof fn lemma_views_drop(pre: Seq<Vec<u8>>)
    requires
        pre.len() > 0,
    ensures
        views_of(pre.drop_last()) == views_of(pre).drop_last(),
{
    assert(views_of(pre.drop_last()) =~= views_of(pre).drop_last());
}

/// Dot-segment removal keeps every segment normal: the output holds only
/// input segments and empty segments.
pub proof fn lemma_remove_dots_from_normal(out: Seq<Seq<u8>>, segs: Seq<Seq<u8>>, i: int)
    requires
        forall|k: int| 0 <= k < out.len() ==> normal(#[trigger] out[k], Comp::Segment),
        forall|k: int| 0 <= k < segs.len() ==> normal(#[trigger] segs[k], Comp::Segment),
    ensures
        forall|k: int|
            0 <= k < remove_dots_from(out, segs, i).len() ==> normal(
                #[trigger] remove_dots_from(out, segs, i)[k],
                Comp::Segment,
            ),
    decreases segs.len() - i,
{
    if i < 0 || i >= segs.len() {
    } else {
        let last = i == segs.len() - 1;
        let s0 = segs[i];
        let o2 = remove_dots_step(out, s0, last);
        assert(normal(Seq::<u8>::empty(), Comp::Segment));
        assert forall|k: int| 0 <= k < o2.len() implies normal(#[trigger] o2[k], Comp::Segment) by {
            if s0 == seg_dot() {
                if last {
                    if k < out.len() {
                        assert(o2[k] == out[k]);
                    } else {
                        assert(o2[k] == Seq::<u8>::empty());
                    }
                } else {
                    assert(o2[k] == out[k]);
                }
            } else if s0 == seg_dotdot() {
                let o = if out.len() > 0 {
                    out.drop_last()
                } else {
                    out
                };
                assert(forall|t: int| 0 <= t < o.len() ==> o[t] == out[t]);
                if last {
                    if k < o.len() {
                        assert(o2[k] == o[k]);
                    } else {
                        assert(o2[k] == Seq::<u8>::empty());
                    }
                } else {
                    assert(o2[k] == o[k]);
                }
            } else {
                if k < out.len() {
                    assert(o2[k] == out[k]);
                } else {
                    assert(o2[k] == s0);
                }
            }
        }
        lemma_remove_dots_from_normal(o2, segs, i + 1);
        assert(remove_dots_from(out, segs, i) == remove_dots_from(o2, segs, i + 1));
    }
}

/// The canonical result of dot-segment removal is never the lone empty
/// segment, and all its segments are normal.
pub proof fn lemma_remove_dots_wf(segs: Seq<Seq<u8>>)
    requires
        forall|k: int| 0 <= k < segs.len() ==> normal(#[trigger] segs[k], Comp::Segment),
    ensures
        forall|k: int|
            0 <= k < remove_dots(segs).len() ==> normal(
                #[trigger] remove_dots(segs)[k],
                Comp::Segment,
            ),
        !(remove_dots(segs).len() == 1 && remove_dots(segs)[0].len() == 0),
{
    lemma_remove_dots_from_normal(Seq::empty(), segs, 0);
}

/// Is `v` the segment `.`?
fn is_dot(v: &Vec<u8>) -> (r: bool)
    ensures
        r == (v@ == seg_dot()),
{
    let r = v.len() == 1 && v[0] == 0x2e;
    proof {
        if r {
            assert(v@ =~= seg_dot());
        }
    }
    r
}

/// Is `v` the segment `..`?
fn is_dotdot(v: &Vec<u8>) -> (r: bool)
    ensures
        r == (v@ == seg_dotdot()),
{
    let r = v.len() == 2 && v[0] == 0x2e && v[1] == 0x2e;
    proof {
        if r {
            assert(v@ =~= seg_dotdot());
        }
    }
    r
}

/// Remove `.` and `..` segments from a path.
pub fn remove_dots_vec(segs: &Vec<Vec<u8>>) -> (r: Vec<Vec<u8>>)
    ensures
        views_of(r@) == remove_dots(views_of(segs@)),
{
    let ghost sv = views_of(segs@);
    let mut out: Vec<Vec<u8>> = Vec::new();
    let mut i: usize = 0;
    proof {
        assert(views_of(out@) =~= Seq::<Seq<u8>>::empty());
    }
    while i < segs.len()
        invariant
            0 <= i <= segs@.len(),
            sv == views_of(segs@),
            remove_dots_from(views_of(out@), sv, i as int) == remove_dots_from(
                Seq::empty(),
                sv,
                0,
            ),
        decreases segs@.len() - i,
    {
        let last = i == segs.len() - 1;
        let ghost pre = out@;
        if is_dot(&segs[i]) {
            if last {
                let e: Vec<u8> = Vec::new();
                out.push(e);
                proof {
                    lemma_views_push(pre, e);
                    assert(e@ =~= Seq::<u8>::empty());
                    assert(views_of(out@) =~= views_of(pre).push(Seq::empty()));
                }
            }
        } else if is_dotdot(&segs[i]) {
            if out.len() > 0 {
                out.pop();
                proof {
                    lemma_views_drop(pre);
                }
            }
            let ghost mid = out@;
            if last {
                let e: Vec<u8> = Vec::new();
                out.push(e);
                proof {
                    lemma_views_push(mid, e);
                    assert(e@ =~= Seq::<u8>::empty());
                    assert(views_of(out@) =~= views_of(mid).push(Seq::empty()));
                }
            }
        } else {
            let c = copy_vec(&segs[i]);
            out.push(c);
            proof {
                lemma_views_push(pre, c);
            }
        }
        proof {
            assert(sv[i as int] == segs@[i as int]@);
            assert(views_of(out@) == remove_dots_step(views_of(pre), sv[i as int], last));
        }
        i += 1;
    }
    if out.len() == 1 && out[0].len() == 0 {
        let e: Vec<Vec<u8>> = Vec::new();
        proof {
            assert(views_of(out@)[0].len() == 0);
            assert(views_of(e@) =~= Seq::<Seq<u8>>::empty());
            assert(views_of(e@) == remove_dots(sv));
        }
        e
    } else {
        proof {
            if views_of(out@).len() == 1 {
                assert(views_of(out@)[0] == out@[0]@);
            }
            assert(views_of(out@) == remove_dots(sv));
        }
        out
    }
}

// ---------------------------------------------------------------------------
// Reference resolution
// ---------------------------------------------------------------------------

/// The URL that a parsed reference denotes against an absolute base:
/// a reference with a scheme stands alone; one with an authority takes the
/// base's scheme; an empty one keeps the base's path; an absolute path
/// replaces the base's; a relative path merges with it, dropping the base's
/// last segment; merged paths have `.` and `..` removed.  The reference's
/// query and fragment always replace the base's.
pub open spec fn resolve_model(b: UrlModel, r: RefModel) -> UrlModel {
    match r.scheme {
        Some(sch) => UrlModel {
            scheme: sch,
            authority: r.authority,
            path_abs: r.path_abs,
            segments: r.segments,
            query: r.query,
            fragment: r.fragment,
        },
        None => {
            if r.authority.is_some() {
                UrlModel {
                    scheme: b.scheme,
                    authority: r.authority,
                    path_abs: true,
                    segments: remove_dots(r.segments),
                    query: r.query,
                    fragment: r.fragment,
                }
            } else if r.segments.len() == 0 && !r.path_abs {
                UrlModel {
                    scheme: b.scheme,
                    authority: b.authority,
                    path_abs: b.path_abs,
                    segments: b.segments,
                    query: r.query,
                    fragment: r.fragment,
                }
            } else if r.path_abs {
                UrlModel {
                    scheme: b.scheme,
                    authority: b.authority,
                    path_abs: true,
                    segments: remove_dots(r.segments),
                    query: r.query,
                    fragment: r.fragment,
                }
            } else {
                UrlModel {
                    scheme: b.scheme,
                    authority: b.authority,
                    path_abs: true,
                    segments: remove_dots(
                        if b.segments.len() == 0 {
                            r.segments
                        } else {
                            b.segments.drop_last() + r.segments
                        },
                    ),
                    query: r.query,
                    fragment: r.fragment,
                }
            }
        },
    }
}

/// Resolve a reference string against an absolute base.  Fails with
/// `SyntaxError` when the reference does not parse, and with
/// `MissingAuthority` when the reference is relative and the base has no
/// authority.
pub fn resolve(base: &Url, reference: &Vec<u8>) -> (r: Result<Url, Error>)
    requires
        wf(base@),
    ensures
        match r {
            Ok(u) => wf(u@) && (parse_ref(reference@) matches Some(rm) && (rm.scheme.is_some()
                || base@.authority.is_some()) && u@ == resolve_model(base@, rm)),
            Err(e) => (parse_ref(reference@) is None && e == Error::SyntaxError) || (parse_ref(
                reference@,
            ) matches Some(rm) && rm.scheme.is_none() && base@.authority.is_none() && e
                == Error::MissingAuthority),
        },
{
    let rf = match parse_reference(reference) {
        Err(e) => {
            return Err(e);
        },
        Ok(rf) => rf,
    };
    match rf.scheme {
        Some(sch) => {
            let u = Url {
                scheme: sch,
                authority: rf.authority,
                path_abs: rf.path_abs,
                segments: rf.segments,
                query: rf.query,
                fragment: rf.fragment,
            };
            Ok(u)
        },
        None => {
            if base.authority.is_none() {
                return Err(Error::MissingAuthority);
            }
            match rf.authority {
                Some(a) => {
                    let segs = remove_dots_vec(&rf.segments);
                    proof {
                        crate::resolve::lemma_remove_dots_wf(views_of(rf.segments@));
                    }
                    let u = Url {
                        scheme: copy_vec(&base.scheme),
                        authority: Some(a),
                        path_abs: true,
                        segments: segs,
                        query: rf.query,
                        fragment: rf.fragment,
                    };
                    Ok(u)
                },
                None => {
                    if rf.segments.len() == 0 && !rf.path_abs {
                        let u = Url {
                            scheme: copy_vec(&base.scheme),
                            authority: match &base.authority {
                                Some(a) => Some(copy_authority(a)),
                                None => None,
                            },
                            path_abs: base.path_abs,
                            segments: copy_segments(&base.segments),
                            query: rf.query,
                            fragment: rf.fragment,
                        };
                        Ok(u)
                    } else if rf.path_abs {
                        let segs = remove_dots_vec(&rf.segments);
                        proof {
                            lemma_remove_dots_wf(views_of(rf.segments@));
                        }
                        let u = Url {
                            scheme: copy_vec(&base.scheme),
                            authority: match &base.authority {
                                Some(a) => Some(copy_authority(a)),
                                None => None,
                            },
                            path_abs: true,
                            segments: segs,
                            query: rf.query,
                            fragment: rf.fragment,
                        };
                        Ok(u)
                    } else {
                        let mut merged: Vec<Vec<u8>> = copy_segments(&base.segments);
                        if merged.len() > 0 {
                            let ghost pre = merged@;
                            merged.pop();
                            proof {
                                lemma_views_drop(pre);
                                assert(views_of(merged@) == base@.segments.drop_last());
                            }
                        }
                        proof {
                            if base@.segments.len() == 0 {
                                assert(views_of(merged@) =~= views_of(rf.segments@).take(0));
                            } else {
                                assert(base@.segments.drop_last() + views_of(rf.segments@).take(0)
                                    =~= base@.segments.drop_last());
                            }
                        }
                        let mut k: usize = 0;
                        while k < rf.segments.len()
                            invariant
                                0 <= k <= rf.segments@.len(),
                                views_of(merged@) == (if base@.segments.len() == 0 {
                                    views_of(rf.segments@).take(k as int)
                                } else {
                                    base@.segments.drop_last() + views_of(rf.segments@).take(
                                        k as int,
                                    )
                                }),
                            decreases rf.segments@.len() - k,
                        {
                            let c = copy_vec(&rf.segments[k]);
                            let ghost pre = merged@;
                            merged.push(c);
                            proof {
                                lemma_views_push(pre, c);
                                assert(views_of(rf.segments@).take(k + 1int) =~= views_of(
                                    rf.segments@,
                                ).take(k as int).push(rf.segments@[k as int]@));
                                assert(views_of(merged@) =~= views_of(pre).push(
                                    rf.segments@[k as int]@,
                                ));
                            }
                            k += 1;
                        }
                        proof {
                            assert(views_of(rf.segments@).take(rf.segments@.len() as int)
                                =~= views_of(rf.segments@));
                        }
                        let segs = remove_dots_vec(&merged);
                        proof {
                            assert forall|t: int|
                                0 <= t < views_of(merged@).len() implies normal(
                                #[trigger] views_of(merged@)[t],
                                Comp::Segment,
                            ) by {
                                if base@.segments.len() > 0 && t < base@.segments.len() - 1 {
                                    assert(views_of(merged@)[t] == base@.segments.drop_last()[t]);
                                    assert(base@.segments.drop_last()[t] == base@.segments[t]);
                                }
                            }
                            lemma_remove_dots_wf(views_of(merged@));
                        }
                        let u = Url {
                            scheme: copy_vec(&base.scheme),
                            authority: match &base.authority {
                                Some(a) => Some(copy_authority(a)),
                                None => None,
                            },
                            path_abs: true,
                            segments: segs,
                            query: rf.query,
                            fragment: rf.fragment,
                        };
                        Ok(u)
                    }
                },
            }
        },
    }
}

/// Resolution identity: the empty reference parses, and resolving it
/// yields the base with query and fragment cleared.
pub proof fn lemma_resolve_identity(b: UrlModel)
    requires
        wf(b),
        (b.authority is Some),
    ensures
        (parse_ref(Seq::empty()) matches Some(rm) && resolve_model(b, rm) == (UrlModel {
            query: None,
            fragment: None,
            ..b
        })),
{
    let s = Seq::<u8>::empty();
    assert(crate::parse::trim_ws(s) == s);
    assert(crate::bytes::find(s, 0x3a) is None);
    assert(crate::parse::path_end(s) == 0);
    assert(s.take(0) =~= s);
    assert(s.skip(0) =~= s);
    let rm = parse_ref(s).unwrap();
    assert(rm.segments =~= Seq::<Seq<u8>>::empty());
    assert(resolve_model(b, rm) == UrlModel { query: None, fragment: None, ..b });
}

} // verus!
