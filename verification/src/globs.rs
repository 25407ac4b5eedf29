use vstd::prelude::*;
use vstd::seq_lib::group_seq_properties;

verus! {

/// A compiled shell-glob pattern of the glob crate, opaque to verification.
#[verifier::external_type_specification]
#[verifier::external_body]
pub struct ExPattern(glob::Pattern);

/// Names the pattern text a compiled `glob::Pattern` was built from.
pub uninterp spec fn pattern_src(p: glob::Pattern) -> Seq<char>;

/// Names the set of pattern texts that `glob::Pattern::new` accepts.
pub uninterp spec fn glob_valid(p: Seq<char>) -> bool;

/// Names the outcome of `glob::Pattern::matches`: whether a name matches a
/// pattern text under shell-glob semantics, anchored to the whole name.
pub uninterp spec fn glob_match(pat: Seq<char>, name: Seq<char>) -> bool;

/// Relies on `glob::Pattern::new`: compiling either succeeds or reports an
/// error, the outcome is a function of the pattern text alone, and the
/// compiled pattern carries the text it was built from.
#[verifier::external_body]
fn compile_pattern(p: &str) -> (r: Option<glob::Pattern>)
    ensures
        (r is Some) == glob_valid(p@),
        r is Some ==> pattern_src(r->0) == p@,
{
    glob::Pattern::new(p).ok()
}

/// Relies on `glob::Pattern::matches`: the outcome is a function of the
/// pattern text and the matched name alone.
#[verifier::external_body]
pub(crate) fn pattern_matches(p: &glob::Pattern, s: &str) -> (r: bool)
    ensures
        r == glob_match(pattern_src(*p), s@),
{
    p.matches(s)
}

/// The pattern texts behind a sequence of compiled patterns.
pub open spec fn srcs_of(pats: Seq<glob::Pattern>) -> Seq<Seq<char>> {
    pats.map_values(|p: glob::Pattern| pattern_src(p))
}

/// The subsequence of pattern texts that compile.
pub open spec fn spec_valid_srcs(ps: Seq<Seq<char>>) -> Seq<Seq<char>> {
    ps.filter(|p: Seq<char>| glob_valid(p))
}

/// Compiles each pattern text with the glob crate, keeping the compiled
/// patterns of the texts it accepts, in order; an invalid text is dropped.
pub fn compile_patterns(pats: &Vec<String>) -> (r: Vec<glob::Pattern>)
    ensures
        srcs_of(r@) == spec_valid_srcs(pats.deep_view()),
{
    broadcast use group_seq_properties;

    let ghost dv = pats.deep_view();
    let mut r: Vec<glob::Pattern> = Vec::new();
    let mut i: usize = 0;
    proof {
        reveal(Seq::filter);
        assert(dv.take(0) =~= Seq::<Seq<char>>::empty());
        assert(srcs_of(r@) =~= spec_valid_srcs(dv.take(0)));
    }
    while i < pats.len()
        invariant
            pats.deep_view() == dv,
            dv.len() == pats.len(),
            i <= pats.len(),
            srcs_of(r@) == spec_valid_srcs(dv.take(i as int)),
        decreases pats.len() - i,
    {
        let ghost r0 = r@;
        match compile_pattern(pats[i].as_str()) {
            Some(pat) => {
                r.push(pat);
            },
            None => {},
        }
        proof {
            reveal(Seq::filter);
            assert(dv.take(i as int + 1).drop_last() =~= dv.take(i as int));
            assert(dv.take(i as int + 1).last() == dv[i as int]);
            if glob_valid(dv[i as int]) {
                assert(srcs_of(r@) =~= srcs_of(r0).push(pattern_src(r@[r0.len() as int])));
                assert(srcs_of(r@) =~= spec_valid_srcs(dv.take(i as int + 1)));
            } else {
                assert(srcs_of(r@) =~= spec_valid_srcs(dv.take(i as int + 1)));
            }
        }
        i += 1;
    }
    proof {
        assert(dv.take(pats.len() as int) =~= dv);
    }
    r
}

} // verus!
