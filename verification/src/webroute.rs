//! Parsing of the HTTP view's request paths: a URL splits into the segments
//! between slashes; the last segment is the resource and the ones before it,
//! rejoined, are the prefix that picks the endpoint.

use vstd::prelude::*;

verus! {

broadcast use vstd::string::group_string_axioms;

/// Length of the leading run of non-slash characters.
pub open spec fn spec_run_len(s: Seq<char>) -> int
    decreases s.len(),
{
    if s.len() == 0 || s[0] == '/' {
        0
    } else {
        1 + spec_run_len(s.drop_first())
    }
}

/// The leading run is never longer than the path, holds no slash, and stops
/// at one.
pub proof fn lemma_run_len_bounds(s: Seq<char>)
    ensures
        0 <= spec_run_len(s) <= s.len(),
        forall|k: int| 0 <= k < spec_run_len(s) ==> s[k] != '/',
        spec_run_len(s) < s.len() ==> s[spec_run_len(s)] == '/',
    decreases s.len(),
{
    if s.len() > 0 && s[0] != '/' {
        lemma_run_len_bounds(s.drop_first());
        assert forall|k: int| 0 <= k < spec_run_len(s) implies s[k] != '/' by {
            if k > 0 {
                assert(s.drop_first()[k - 1] == s[k]);
            }
        }
    }
}

/// The maximal nonempty runs of non-slash characters, in order.
pub open spec fn spec_segments(s: Seq<char>) -> Seq<Seq<char>>
    decreases s.len(),
    via spec_segments_decreases
{
    if s.len() == 0 {
        Seq::empty()
    } else if s[0] == '/' {
        spec_segments(s.drop_first())
    } else {
        let k = spec_run_len(s);
        seq![s.take(k)] + spec_segments(s.skip(k))
    }
}

#[via_fn]
proof fn spec_segments_decreases(s: Seq<char>) {
    if s.len() > 0 && s[0] != '/' {
        lemma_run_len_bounds(s);
    }
}

/// The segments joined back together with single slashes.
pub open spec fn spec_join(parts: Seq<Seq<char>>) -> Seq<char>
    decreases parts.len(),
{
    if parts.len() == 0 {
        Seq::empty()
    } else if parts.len() == 1 {
        parts[0]
    } else {
        spec_join(parts.drop_last()) + seq!['/'] + parts.last()
    }
}

/// What `parse_url` answers: the prefix of a one-segment path is that
/// segment; a bare slash answers a slash; otherwise all but the last
/// segment, rejoined, with the last segment as the resource.
pub open spec fn spec_parse_url(s: Seq<char>) -> (Seq<char>, Seq<char>) {
    let segs = spec_segments(s);
    if segs.len() == 0 {
        ("/"@, Seq::empty())
    } else if segs.len() == 1 {
        (segs[0], Seq::empty())
    } else {
        (spec_join(segs.drop_last()), segs.last())
    }
}

/// Splits a request path into its prefix and resource.
///
/// A path of one segment has that segment as its prefix and an empty
/// resource; the bare path is its own prefix; a longer path's prefix is
/// every segment but the last, rejoined with slashes, and its resource is
/// the last segment.
pub fn parse_url(surl: &str) -> (r: (String, String))
    requires
        surl@.len() >= 1,
        surl@[0] == '/',
    ensures
        r.0@ == spec_parse_url(surl@).0,
        r.1@ == spec_parse_url(surl@).1,
{
    let n = surl.unicode_len();
    let ghost full = surl@;
    let mut segments: Vec<String> = Vec::new();
    proof {
        assert(full.skip(0) =~= full);
        assert(Seq::<Seq<char>>::empty() + spec_segments(full) =~= spec_segments(full));
    }
    let mut i: usize = 0;
    while i < n
        invariant
            i <= n,
            n == full.len(),
            full == surl@,
            spec_segments(full) =~= segments@.map_values(|t: String| t@) + spec_segments(
                full.skip(i as int),
            ),
        decreases n - i,
    {
        let c = surl.get_char(i);
        if c == '/' {
            proof {
                assert(full.skip(i as int).drop_first() =~= full.skip(i + 1));
            }
            i = i + 1;
        } else {
            let mut j = i + 1;
            while j < n && surl.get_char(j) != '/'
                invariant
                    i < j <= n,
                    n == full.len(),
                    full == surl@,
                    forall|k: int| i <= k < j ==> full[k] != '/',
                decreases n - j,
            {
                j = j + 1;
            }
            let seg = surl.substring_char(i, j);
            let ghost segs_pre = segments@.map_values(|t: String| t@);
            proof {
                let rest = full.skip(i as int);
                lemma_run_len_bounds(rest);
                assert forall|k: int| 0 <= k < j - i implies rest[k] != '/' by {
                    assert(rest[k] == full[i + k]);
                }
                if j < n {
                    assert(rest[(j - i) as int] == full[j as int]);
                }
                assert(spec_run_len(rest) == j - i) by {
                    if spec_run_len(rest) < j - i {
                        assert(rest[spec_run_len(rest)] != '/');
                    }
                }
                assert(rest.take((j - i) as int) =~= full.subrange(i as int, j as int));
                assert(rest.skip((j - i) as int) =~= full.skip(j as int));
            }
            segments.push(seg.to_owned());
            proof {
                assert(segments@.map_values(|t: String| t@) =~= segs_pre.push(
                    full.subrange(i as int, j as int),
                ));
            }
            i = j;
        }
    }
    proof {
        assert(full.skip(n as int) =~= Seq::<char>::empty());
        assert(spec_segments(full) =~= segments@.map_values(|t: String| t@));
    }
    proof {
        reveal_strlit("");
        assert(""@ =~= Seq::<char>::empty());
    }
    let m = segments.len();
    if m == 0 {
        (String::from_str("/"), String::from_str(""))
    } else if m == 1 {
        let seg = segments[0].clone();
        (seg, String::from_str(""))
    } else {
        let ghost segs = segments@.map_values(|t: String| t@);
        let mut prefix = segments[0].clone();
        let mut k: usize = 1;
        while k < m - 1
            invariant
                1 <= k <= m - 1,
                m == segments@.len(),
                m >= 2,
                segs == segments@.map_values(|t: String| t@),
                prefix@ == spec_join(segs.take(k as int)),
            decreases m - k,
        {
            prefix.append("/");
            prefix.append(segments[k].as_str());
            proof {
                reveal_strlit("/");
                assert("/"@ =~= seq!['/']);
                assert(segs.take(k + 1).drop_last() =~= segs.take(k as int));
                assert(segs.take(k + 1).last() == segs[k as int]);
            }
            k = k + 1;
        }
        proof {
            assert(segs.take((m - 1) as int) =~= segs.drop_last());
        }
        let resource = segments[m - 1].clone();
        (prefix, resource)
    }
}

/// The endpoint a request path names.
pub enum Route {
    MainPage,
    Keys,
    Hist(String),
    Values(String),
    NotFound,
}

/// Picks the endpoint for a request path: the bare path renders the view
/// page; `keys`, `hist` and `values` serve the aggregation queries, the
/// latter two on the resource named after them; anything else is unknown.
pub fn route_of(surl: &str) -> (r: Route)
    requires
        surl@.len() >= 1,
        surl@[0] == '/',
    ensures
        spec_parse_url(surl@).0 == "/"@ ==> r is MainPage,
        spec_parse_url(surl@).0 == "keys"@ ==> r is Keys,
        spec_parse_url(surl@).0 == "hist"@ ==> (r matches Route::Hist(key) && key@
            == spec_parse_url(surl@).1),
        spec_parse_url(surl@).0 == "values"@ ==> (r matches Route::Values(key) && key@
            == spec_parse_url(surl@).1),
        spec_parse_url(surl@).0 != "/"@ && spec_parse_url(surl@).0 != "keys"@ && spec_parse_url(
            surl@,
        ).0 != "hist"@ && spec_parse_url(surl@).0 != "values"@ ==> r is NotFound,
{
    proof {
        reveal_strlit("/");
        reveal_strlit("keys");
        reveal_strlit("hist");
        reveal_strlit("values");
        assert("/"@.len() == 1);
        assert("keys"@.len() == 4);
        assert("hist"@.len() == 4);
        assert("values"@.len() == 6);
        assert("keys"@[0] == 'k');
        assert("hist"@[0] == 'h');
    }
    let (prefix, resource) = parse_url(surl);
    if prefix == String::from_str("/") {
        Route::MainPage
    } else if prefix == String::from_str("keys") {
        Route::Keys
    } else if prefix == String::from_str("hist") {
        Route::Hist(resource)
    } else if prefix == String::from_str("values") {
        Route::Values(resource)
    } else {
        Route::NotFound
    }
}

} // verus!
