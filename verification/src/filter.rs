//! The verified filter pipeline: the specification of which candidates
//! survive a request, the executable pipeline proved against it, and the
//! laws the pipeline obeys (depth bound, type filter, order independence).

use vstd::prelude::*;

use crate::fsio::{fold_case, lower_of, stat_path};
use crate::options::{
    Candidate, CandidateView, EntryMeta, FindOptions, FindResult, OptionsView, ResultView,
};
use crate::text::{
    base_name, base_name_str, contains_sub, rel_depth, rel_depth_str, str_contains_sub,
    trim_slashes,
};

verus! {

use vstd::multiset::Multiset;

/// A metadata record as the trusted boundary hands it out: a filesystem
/// object is never both a regular file and a directory.
pub open spec fn wf_meta(m: EntryMeta) -> bool {
    !(m.is_file && m.is_dir)
}

/// The depth filter: a candidate survives when it lies strictly below the
/// root (the root itself is never a result) and, under a depth bound, no
/// deeper than the bound.
pub open spec fn depth_passes(opts: OptionsView, path: Seq<char>) -> bool {
    match rel_depth(opts.path, path) {
        Some(d) => 1 <= d && (match opts.max_depth {
            Some(m) => d <= m as int,
            None => true,
        }),
        None => false,
    }
}

/// The type filter: `"f"` keeps regular files, `"d"` keeps directories,
/// any other request (or none) keeps everything.
pub open spec fn type_passes(ft: Option<Seq<char>>, meta: EntryMeta) -> bool {
    match ft {
        None => true,
        Some(t) => if t == seq!['f'] {
            meta.is_file
        } else if t == seq!['d'] {
            meta.is_dir
        } else {
            true
        },
    }
}

/// The name filter: when a pattern is given it must occur in the final
/// path component, case-insensitively under the ignore-aware strategy and
/// case-sensitively under the plain one.
pub open spec fn name_passes(opts: OptionsView, path: Seq<char>) -> bool {
    match opts.name_pattern {
        None => true,
        Some(pat) => if opts.respect_gitignore {
            contains_sub(lower_of(base_name(path)), lower_of(pat))
        } else {
            contains_sub(base_name(path), pat)
        },
    }
}

/// A candidate survives the whole pipeline when it passes the depth, type
/// and name filters.
pub open spec fn passes(opts: OptionsView, c: CandidateView) -> bool {
    &&& depth_passes(opts, c.path)
    &&& type_passes(opts.file_type, c.meta)
    &&& name_passes(opts, c.path)
}

/// The result record built from a surviving candidate.
pub open spec fn mk_result(c: CandidateView) -> ResultView {
    ResultView { path: c.path, is_dir: c.meta.is_dir, size: c.meta.size }
}

/// What one traversal returns: the surviving candidates, in traversal
/// order, each turned into a result record.
pub open spec fn spec_filter(opts: OptionsView, cs: Seq<CandidateView>) -> Seq<ResultView>
    decreases cs.len(),
{
    if cs.len() == 0 {
        Seq::empty()
    } else {
        let rest = spec_filter(opts, cs.drop_last());
        if passes(opts, cs.last()) {
            rest.push(mk_result(cs.last()))
        } else {
            rest
        }
    }
}

/// The views of a list of result records.
pub open spec fn result_views(s: Seq<FindResult>) -> Seq<ResultView> {
    s.map_values(|x: FindResult| x@)
}

/// The views of a list of candidates.
pub open spec fn candidate_views(s: Seq<Candidate>) -> Seq<CandidateView> {
    s.map_values(|c: Candidate| c@)
}

/// Whether one candidate survives the pipeline for this request.
pub fn entry_passes(opts: &FindOptions, c: &Candidate) -> (r: bool)
    ensures
        r == passes(opts@, c@),
{
    let d = rel_depth_str(opts.path.as_str(), c.path.as_str());
    let depth_ok: bool = match d {
        Some(dd) => dd >= 1 && (match &opts.max_depth {
            Some(m) => dd <= *m,
            None => true,
        }),
        None => false,
    };
    let type_ok: bool = match &opts.file_type {
        None => true,
        Some(t) => {
            let tl = t.as_str().unicode_len();
            if tl == 1 {
                let c0 = t.as_str().get_char(0);
                proof {
                    assert(seq!['f'].len() == 1 && seq!['f'][0] == 'f');
                    assert(seq!['d'].len() == 1 && seq!['d'][0] == 'd');
                    if c0 == 'f' {
                        assert(t@ =~= seq!['f']);
                    } else {
                        assert(t@ != seq!['f']);
                    }
                    if c0 == 'd' {
                        assert(t@ =~= seq!['d']);
                    } else {
                        assert(t@ != seq!['d']);
                    }
                }
                if c0 == 'f' {
                    c.meta.is_file
                } else if c0 == 'd' {
                    c.meta.is_dir
                } else {
                    true
                }
            } else {
                proof {
                    assert(seq!['f'].len() == 1);
                    assert(seq!['d'].len() == 1);
                }
                true
            }
        },
    };
    let name_ok: bool = match &opts.name_pattern {
        None => true,
        Some(pat) => {
            let name = base_name_str(c.path.as_str());
            if opts.respect_gitignore {
                let ln = fold_case(name);
                let lp = fold_case(pat.as_str());
                str_contains_sub(ln.as_str(), lp.as_str())
            } else {
                str_contains_sub(name, pat.as_str())
            }
        },
    };
    depth_ok && type_ok && name_ok
}

/// Run every candidate through the pipeline, keeping the survivors in
/// order: the executable form of [`spec_filter`].
pub fn filter_candidates(opts: &FindOptions, cands: &Vec<Candidate>) -> (r: Vec<FindResult>)
    ensures
        result_views(r@) == spec_filter(opts@, candidate_views(cands@)),
{
    let mut out: Vec<FindResult> = Vec::new();
    let mut i: usize = 0;
    proof {
        assert(result_views(out@) =~= spec_filter(opts@, candidate_views(cands@.take(0))));
    }
    while i < cands.len()
        invariant
            0 <= i <= cands@.len(),
            result_views(out@) == spec_filter(opts@, candidate_views(cands@.take(i as int))),
        decreases cands@.len() - i,
    {
        let ghost pre = candidate_views(cands@.take(i as int));
        let ghost post = candidate_views(cands@.take(i + 1));
        proof {
            assert(post.drop_last() =~= pre);
            assert(post.last() == cands@[i as int]@);
        }
        let c = &cands[i];
        if entry_passes(opts, c) {
            let new_r = FindResult { path: c.path.clone(), is_dir: c.meta.is_dir, size: c.meta.size };
            proof {
                assert(new_r@ == mk_result(cands@[i as int]@));
            }
            let ghost old_out = out@;
            out.push(new_r);
            proof {
                assert(result_views(out@) =~= result_views(old_out).push(new_r@));
            }
        }
        i += 1;
    }
    proof {
        assert(cands@.take(cands@.len() as int) =~= cands@);
    }
    out
}

/// `p` is one of the paths in `paths`.
pub open spec fn path_listed(paths: Seq<String>, p: Seq<char>) -> bool {
    exists|j: int| 0 <= j < paths.len() && p == (#[trigger] paths[j])@
}

/// Read the metadata of each raw path the walker produced, dropping
/// silently every path whose metadata cannot be obtained. Every candidate
/// kept carries a path that the walker produced and a well-formed record.
pub fn collect_candidates(paths: &Vec<String>) -> (r: Vec<Candidate>)
    ensures
        forall|i: int| 0 <= i < r@.len() ==> wf_meta((#[trigger] r@[i]).meta),
        forall|i: int| 0 <= i < r@.len() ==> path_listed(paths@, (#[trigger] r@[i]).path@),
{
    let mut out: Vec<Candidate> = Vec::new();
    let mut k: usize = 0;
    while k < paths.len()
        invariant
            0 <= k <= paths@.len(),
            forall|i: int| 0 <= i < out@.len() ==> wf_meta((#[trigger] out@[i]).meta),
            forall|i: int| 0 <= i < out@.len() ==> path_listed(paths@, (#[trigger] out@[i]).path@),
        decreases paths@.len() - k,
    {
        match stat_path(&paths[k]) {
            Some(m) => {
                out.push(Candidate { path: paths[k].clone(), meta: m });
                proof {
                    assert((out@[out@.len() - 1]).path@ == paths@[k as int]@);
                }
            },
            None => {},
        }
        k += 1;
    }
    out
}

/// What is known of every entry the pipeline keeps: it lies strictly
/// below the root within any depth bound, a `"f"` request never yields a
/// directory, a `"d"` request yields only directories, and its name
/// matches the pattern under the strategy's case rule.
pub open spec fn kept_entry(opts: OptionsView, rv: ResultView) -> bool {
    &&& depth_passes(opts, rv.path)
    &&& (opts.file_type == Some(seq!['f']) ==> !rv.is_dir)
    &&& (opts.file_type == Some(seq!['d']) ==> rv.is_dir)
    &&& name_passes(opts, rv.path)
}

/// Law: every entry the pipeline keeps passed every filter. In
/// particular, with `file_type = "f"` no result is a directory and with
/// `file_type = "d"` every result is one.
pub proof fn lemma_spec_filter_sound(opts: OptionsView, cs: Seq<CandidateView>)
    requires
        forall|i: int| 0 <= i < cs.len() ==> wf_meta((#[trigger] cs[i]).meta),
    ensures
        forall|k: int|
            0 <= k < spec_filter(opts, cs).len() ==> kept_entry(
                opts,
                #[trigger] spec_filter(opts, cs)[k],
            ),
    decreases cs.len(),
{
    if cs.len() > 0 {
        let rest = spec_filter(opts, cs.drop_last());
        assert(forall|i: int|
            0 <= i < cs.drop_last().len() ==> wf_meta((#[trigger] cs.drop_last()[i]).meta));
        lemma_spec_filter_sound(opts, cs.drop_last());
        let c = cs.last();
        assert(wf_meta(c.meta));
        assert forall|k: int|
            0 <= k < spec_filter(opts, cs).len() implies kept_entry(
            opts,
            spec_filter(opts, cs)[k],
        ) by {
            if passes(opts, c) && k == rest.len() {
                assert(spec_filter(opts, cs)[k] == mk_result(c));
                assert(seq!['f'] != seq!['d']) by {
                    assert(seq!['f'][0] == 'f');
                    assert(seq!['d'][0] == 'd');
                }
            } else {
                assert(spec_filter(opts, cs)[k] == rest[k]);
            }
        }
    }
}

/// Law: under a depth bound of zero nothing survives; the root itself is
/// never a result and everything else is too deep.
pub proof fn lemma_depth_zero_empty(opts: OptionsView, cs: Seq<CandidateView>)
    requires
        opts.max_depth == Some(0usize),
    ensures
        spec_filter(opts, cs).len() == 0,
    decreases cs.len(),
{
    if cs.len() > 0 {
        lemma_depth_zero_empty(opts, cs.drop_last());
        assert(!depth_passes(opts, cs.last().path));
    }
}

/// Law: the root itself is never a result. A traversal of an empty root
/// yields at most the root entry itself, so the call returns an empty
/// list: a candidate list holding only the root path, in any
/// trailing-slash form, filters to nothing.
pub proof fn lemma_root_only_yields_nothing(opts: OptionsView, cs: Seq<CandidateView>)
    requires
        forall|i: int|
            0 <= i < cs.len() ==> trim_slashes((#[trigger] cs[i]).path) == trim_slashes(
                opts.path,
            ),
    ensures
        spec_filter(opts, cs).len() == 0,
    decreases cs.len(),
{
    if cs.len() > 0 {
        lemma_root_only_yields_nothing(opts, cs.drop_last());
        assert(trim_slashes(cs[cs.len() - 1].path) == trim_slashes(opts.path));
        assert(!depth_passes(opts, cs.last().path));
    }
}

proof fn lemma_spec_filter_add(opts: OptionsView, a: Seq<CandidateView>, b: Seq<CandidateView>)
    ensures
        spec_filter(opts, a + b) == spec_filter(opts, a) + spec_filter(opts, b),
    decreases b.len(),
{
    if b.len() == 0 {
        assert(a + b =~= a);
        assert(spec_filter(opts, a) + spec_filter(opts, b) =~= spec_filter(opts, a));
    } else {
        lemma_spec_filter_add(opts, a, b.drop_last());
        assert((a + b).drop_last() =~= a + b.drop_last());
        assert((a + b).last() == b.last());
        if passes(opts, b.last()) {
            assert((spec_filter(opts, a) + spec_filter(opts, b.drop_last())).push(
                mk_result(b.last()),
            ) =~= spec_filter(opts, a) + spec_filter(opts, b.drop_last()).push(
                mk_result(b.last()),
            ));
        }
    }
}

proof fn lemma_filter_singleton(opts: OptionsView, c: CandidateView)
    ensures
        spec_filter(opts, seq![c]) == (if passes(opts, c) {
            seq![mk_result(c)]
        } else {
            Seq::<ResultView>::empty()
        }),
{
    let s = seq![c];
    assert(s.len() == 1);
    assert(s.drop_last() =~= Seq::<CandidateView>::empty());
    assert(s.last() == c);
    assert(spec_filter(opts, s.drop_last()) == Seq::<ResultView>::empty());
    if passes(opts, c) {
        assert(spec_filter(opts, s) == Seq::<ResultView>::empty().push(mk_result(c)));
        assert(Seq::<ResultView>::empty().push(mk_result(c)) =~= seq![mk_result(c)]);
    } else {
        assert(spec_filter(opts, s) == Seq::<ResultView>::empty());
    }
}

proof fn lemma_empty_to_multiset<A>()
    ensures
        Seq::<A>::empty().to_multiset() == Multiset::<A>::empty(),
{
    broadcast use vstd::seq_lib::group_to_multiset_ensures;
    broadcast use vstd::multiset::group_multiset_axioms;

    assert forall|y: A| Seq::<A>::empty().to_multiset().count(y)
        == Multiset::<A>::empty().count(y) by {
        if Seq::<A>::empty().to_multiset().count(y) > 0 {
            assert(Seq::<A>::empty().contains(y));
        }
    }
    assert(Seq::<A>::empty().to_multiset() =~= Multiset::<A>::empty());
}

/// Law: the outcome of one traversal is a function of which candidates
/// were seen, not of the order the filesystem listed them in. Two
/// candidate lists that hold the same entries, in any orders, keep the
/// same entries: the results agree as multisets.
pub proof fn lemma_filter_respects_multiset(
    opts: OptionsView,
    a: Seq<CandidateView>,
    b: Seq<CandidateView>,
)
    requires
        a.to_multiset() == b.to_multiset(),
    ensures
        spec_filter(opts, a).to_multiset() == spec_filter(opts, b).to_multiset(),
    decreases a.len(),
{
    broadcast use vstd::seq_lib::group_to_multiset_ensures;
    broadcast use vstd::multiset::group_multiset_axioms;

    if a.len() == 0 {
        assert(a.to_multiset().len() == 0);
        assert(b.len() == 0);
        assert(b =~= a);
    } else {
        let x = a.last();
        let a0 = a.drop_last();
        assert(a =~= a0.push(x));
        assert(a0.push(x).to_multiset() == a0.to_multiset().insert(x));
        assert(b.to_multiset().count(x) > 0) by {
            assert(a0.to_multiset().insert(x).count(x) > 0);
        }
        assert(b.contains(x));
        let i = choose|i: int| 0 <= i < b.len() && b[i] == x;
        assert(b.remove(i).to_multiset() == b.to_multiset().remove(b[i]));
        assert(a0.to_multiset() =~= b.remove(i).to_multiset()) by {
            assert(a0.to_multiset().insert(x).remove(x) =~= a0.to_multiset());
        }
        lemma_filter_respects_multiset(opts, a0, b.remove(i));
        // Decompose b around position i.
        let b_pre = b.subrange(0, i);
        let b_post = b.subrange(i + 1, b.len() as int);
        assert(b =~= (b_pre + seq![x]) + b_post);
        assert(b.remove(i) == b_pre + b_post);
        lemma_spec_filter_add(opts, b_pre + seq![x], b_post);
        lemma_spec_filter_add(opts, b_pre, seq![x]);
        lemma_spec_filter_add(opts, b_pre, b_post);
        lemma_filter_singleton(opts, x);
        lemma_empty_to_multiset::<ResultView>();
        let fp = spec_filter(opts, b_pre);
        let fx = spec_filter(opts, seq![x]);
        let fs = spec_filter(opts, b_post);
        vstd::seq_lib::lemma_multiset_commutative(fp + fx, fs);
        vstd::seq_lib::lemma_multiset_commutative(fp, fx);
        vstd::seq_lib::lemma_multiset_commutative(fp, fs);
        if passes(opts, x) {
            assert(fx.to_multiset() == Seq::<ResultView>::empty().push(mk_result(x)).to_multiset())
                by {
                assert(fx == seq![mk_result(x)]);
                assert(seq![mk_result(x)] =~= Seq::<ResultView>::empty().push(mk_result(x)));
            }
            assert(fx.to_multiset() == Multiset::<ResultView>::empty().insert(mk_result(x)));
            assert(spec_filter(opts, a) == spec_filter(opts, a0).push(mk_result(x)));
            assert(spec_filter(opts, a).to_multiset() == spec_filter(opts, a0).to_multiset().insert(
                mk_result(x),
            ));
            assert(spec_filter(opts, a).to_multiset() =~= spec_filter(opts, b).to_multiset());
        } else {
            assert(fx.to_multiset() == Multiset::<ResultView>::empty()) by {
                assert(fx =~= Seq::<ResultView>::empty());
            }
            assert(spec_filter(opts, a) == spec_filter(opts, a0));
            assert(spec_filter(opts, a).to_multiset() =~= spec_filter(opts, b).to_multiset());
        }
    }
}

proof fn lemma_map_values_multiset<A, B>(f: spec_fn(A) -> B, s1: Seq<A>, s2: Seq<A>)
    requires
        s1.to_multiset() == s2.to_multiset(),
    ensures
        s1.map_values(f).to_multiset() == s2.map_values(f).to_multiset(),
    decreases s1.len(),
{
    broadcast use vstd::seq_lib::group_to_multiset_ensures;
    broadcast use vstd::multiset::group_multiset_axioms;

    if s1.len() == 0 {
        assert(s1.to_multiset().len() == 0);
        assert(s2.len() == 0);
        assert(s2 =~= s1);
    } else {
        let x = s1.last();
        let s0 = s1.drop_last();
        assert(s1 =~= s0.push(x));
        assert(s0.push(x).to_multiset() == s0.to_multiset().insert(x));
        assert(s2.to_multiset().count(x) > 0) by {
            assert(s0.to_multiset().insert(x).count(x) > 0);
        }
        assert(s2.contains(x));
        let i = choose|i: int| 0 <= i < s2.len() && s2[i] == x;
        assert(s2.remove(i).to_multiset() == s2.to_multiset().remove(s2[i]));
        assert(s0.to_multiset() =~= s2.remove(i).to_multiset()) by {
            assert(s0.to_multiset().insert(x).remove(x) =~= s0.to_multiset());
        }
        lemma_map_values_multiset(f, s0, s2.remove(i));
        assert(s1.map_values(f) =~= s0.map_values(f).push(f(x)));
        assert(s2.remove(i).map_values(f) =~= s2.map_values(f).remove(i));
        assert(s1.map_values(f).to_multiset() == s0.map_values(f).to_multiset().insert(f(x)));
        assert(s2.map_values(f)[i] == f(x));
        assert(s2.map_values(f).remove(i).to_multiset() == s2.map_values(f).to_multiset().remove(
            f(x),
        ));
        assert(s2.map_values(f).to_multiset().count(f(x)) > 0) by {
            assert(s2.map_values(f)[i] == f(x));
            assert(s2.map_values(f).contains(f(x)));
        }
        assert(s1.map_values(f).to_multiset() =~= s2.map_values(f).to_multiset());
    }
}

/// The paths of a list of results.
pub open spec fn result_paths(s: Seq<ResultView>) -> Seq<Seq<char>> {
    s.map_values(|r: ResultView| r.path)
}

/// Law: two traversals of an unchanged tree that saw the same candidates,
/// in whatever orders the filesystem listed them, return the same
/// multiset of result paths.
pub proof fn lemma_filter_paths_respect_multiset(
    opts: OptionsView,
    a: Seq<CandidateView>,
    b: Seq<CandidateView>,
)
    requires
        a.to_multiset() == b.to_multiset(),
    ensures
        result_paths(spec_filter(opts, a)).to_multiset() == result_paths(
            spec_filter(opts, b),
        ).to_multiset(),
{
    lemma_filter_respects_multiset(opts, a, b);
    lemma_map_values_multiset(|r: ResultView| r.path, spec_filter(opts, a), spec_filter(opts, b));
}

} // verus!
