use vstd::prelude::*;
use vstd::string::{StrSliceExecFns, StringExecFns};

use crate::strutil::push_char;

verus! {

/// Names the Unicode property behind `char::is_alphanumeric`.
pub uninterp spec fn is_alnum(c: char) -> bool;

/// Relies on `char::is_alphanumeric`: whether `c` is alphabetic or numeric
/// under Unicode, a property of the character alone.
#[verifier::external_body]
fn char_is_alphanumeric(c: char) -> (r: bool)
    ensures
        r == is_alnum(c),
{
    c.is_alphanumeric()
}

/// Names the result of `str::to_lowercase`.
pub uninterp spec fn lower_of(s: Seq<char>) -> Seq<char>;

/// Relies on `str::to_lowercase`: the Unicode lowercase rendering of `s`,
/// a function of the characters alone.
#[verifier::external_body]
fn to_lowercase_str(s: &str) -> (r: String)
    ensures
        r@ == lower_of(s@),
{
    s.to_lowercase()
}

/// Every character that is neither alphanumeric nor `-` replaced by `-`.
pub open spec fn spec_dashed(s: Seq<char>) -> Seq<char> {
    Seq::new(
        s.len(),
        |i: int|
            if is_alnum(s[i]) || s[i] == '-' {
                s[i]
            } else {
                '-'
            },
    )
}

/// Runs of two or more `-` collapsed into a single `-`.
pub open spec fn spec_collapsed(s: Seq<char>) -> Seq<char>
    decreases s.len(),
{
    if s.len() == 0 {
        Seq::empty()
    } else if s.len() >= 2 && s[0] == '-' && s[1] == '-' {
        spec_collapsed(s.drop_first())
    } else {
        seq![s[0]] + spec_collapsed(s.drop_first())
    }
}

/// Leading `-` characters removed.
pub open spec fn spec_trim_start(s: Seq<char>) -> Seq<char>
    decreases s.len(),
{
    if s.len() > 0 && s[0] == '-' {
        spec_trim_start(s.drop_first())
    } else {
        s
    }
}

/// Trailing `-` characters removed.
pub open spec fn spec_trim_end(s: Seq<char>) -> Seq<char>
    decreases s.len(),
{
    if s.len() > 0 && s[s.len() - 1] == '-' {
        spec_trim_end(s.drop_last())
    } else {
        s
    }
}

/// The slug of `s`: lower-cased, every character that is not alphanumeric
/// or `-` replaced by `-`, doubled `-` collapsed into one, leading and
/// trailing `-` removed.
pub open spec fn spec_slugify(s: Seq<char>) -> Seq<char> {
    spec_trim_end(spec_trim_start(spec_collapsed(spec_dashed(lower_of(s)))))
}

/// Once the first `k` characters are `-` and the character after them is
/// not, trimming from the start is exactly skipping those `k`.
proof fn lemma_trim_start_skip(s: Seq<char>, k: int)
    requires
        0 <= k <= s.len(),
        forall|t: int| 0 <= t < k ==> s[t] == '-',
        k == s.len() || s[k] != '-',
    ensures
        spec_trim_start(s) == s.skip(k),
    decreases k,
{
    if k == 0 {
        assert(s.skip(0) =~= s);
    } else {
        lemma_trim_start_skip(s.drop_first(), k - 1);
        assert(s.drop_first().skip(k - 1) =~= s.skip(k));
    }
}

/// Once every character from position `e` on is `-` and the one before
/// them is not, trimming from the end is exactly keeping the first `e`.
proof fn lemma_trim_end_take(s: Seq<char>, e: int)
    requires
        0 <= e <= s.len(),
        forall|t: int| e <= t < s.len() ==> s[t] == '-',
        e == 0 || s[e - 1] != '-',
    ensures
        spec_trim_end(s) == s.take(e),
    decreases s.len(),
{
    if e == s.len() {
        assert(s.take(e) =~= s);
    } else {
        assert(s[s.len() - 1] == '-');
        lemma_trim_end_take(s.drop_last(), e);
        assert(s.drop_last().take(e) =~= s.take(e));
    }
}

/// Computes the slug used as the title component of a destination name.
pub fn slugify(name: &str) -> (r: String)
    ensures
        r@ == spec_slugify(name@),
{
    let lower = to_lowercase_str(name);
    let ghost ls = lower@;
    let llen = lower.as_str().unicode_len();

    let mut dashed = String::new();
    let mut i: usize = 0;
    proof {
        assert(dashed@ =~= spec_dashed(ls).take(0));
    }
    while i < llen
        invariant
            llen == ls.len(),
            lower@ == ls,
            i <= llen,
            dashed@ == spec_dashed(ls).take(i as int),
        decreases llen - i,
    {
        let c = lower.as_str().get_char(i);
        if char_is_alphanumeric(c) || c == '-' {
            push_char(&mut dashed, c);
        } else {
            push_char(&mut dashed, '-');
        }
        proof {
            assert(dashed@ =~= spec_dashed(ls).take(i as int + 1));
        }
        i += 1;
    }
    let ghost ds = spec_dashed(ls);
    proof {
        assert(dashed@ =~= ds);
    }

    let dlen = dashed.as_str().unicode_len();
    let mut col = String::new();
    let mut j: usize = 0;
    proof {
        assert(ds.skip(0) =~= ds);
        assert(col@ + spec_collapsed(ds) =~= spec_collapsed(ds));
    }
    while j < dlen
        invariant
            dlen == ds.len(),
            dashed@ == ds,
            j <= dlen,
            col@ + spec_collapsed(ds.skip(j as int)) == spec_collapsed(ds),
        decreases dlen - j,
    {
        let ghost rest = ds.skip(j as int);
        let ghost col0 = col@;
        proof {
            assert(rest.len() == dlen - j);
            assert(rest[0] == ds[j as int]);
            if j + 1 < dlen {
                assert(rest[1] == ds[j as int + 1]);
            }
            assert(rest.drop_first() =~= ds.skip(j as int + 1));
        }
        let c = dashed.as_str().get_char(j);
        let skip_this = c == '-' && j + 1 < dlen && dashed.as_str().get_char(j + 1) == '-';
        if !skip_this {
            push_char(&mut col, c);
            proof {
                assert(spec_collapsed(rest) == seq![rest[0]] + spec_collapsed(rest.drop_first()));
                assert(col@ =~= col0 + seq![c]);
                assert(col@ + spec_collapsed(ds.skip(j as int + 1)) =~= col0 + spec_collapsed(
                    rest,
                ));
            }
        } else {
            proof {
                assert(spec_collapsed(rest) == spec_collapsed(rest.drop_first()));
            }
        }
        j += 1;
    }
    let ghost cs = spec_collapsed(ds);
    proof {
        assert(ds.skip(dlen as int) =~= Seq::<char>::empty());
        assert(spec_collapsed(Seq::<char>::empty()) =~= Seq::<char>::empty());
        assert(col@ =~= col@ + Seq::<char>::empty());
        assert(col@ == cs);
    }

    let clen = col.as_str().unicode_len();
    let mut k: usize = 0;
    while k < clen && col.as_str().get_char(k) == '-'
        invariant
            clen == col@.len(),
            col@ == cs,
            k <= clen,
            forall|t: int| 0 <= t < k ==> col@[t] == '-',
        decreases clen - k,
    {
        k += 1;
    }
    let mut e: usize = clen;
    while e > k && col.as_str().get_char(e - 1) == '-'
        invariant
            clen == col@.len(),
            col@ == cs,
            k <= e <= clen,
            forall|t: int| e <= t < clen ==> col@[t] == '-',
        decreases e,
    {
        e -= 1;
    }
    let out = col.as_str().substring_char(k, e);
    proof {
        lemma_trim_start_skip(cs, k as int);
        let ts = cs.skip(k as int);
        assert forall|t: int| e - k <= t < ts.len() implies ts[t] == '-' by {
            assert(ts[t] == cs[k + t]);
        }
        lemma_trim_end_take(ts, e - k);
        assert(out@ =~= ts.take(e - k));
    }
    String::from_str(out)
}

/// No two `-` stand next to each other.
pub open spec fn spec_no_doubled_dash(s: Seq<char>) -> bool {
    forall|i: int| 0 <= i && i + 1 < s.len() ==> !(#[trigger] s[i] == '-' && s[i + 1] == '-')
}

/// Collapsing keeps the first character and never empties a non-empty
/// sequence.
proof fn lemma_collapsed_head(s: Seq<char>)
    requires
        s.len() > 0,
    ensures
        spec_collapsed(s).len() > 0,
        spec_collapsed(s)[0] == s[0],
    decreases s.len(),
{
    if s.len() >= 2 && s[0] == '-' && s[1] == '-' {
        lemma_collapsed_head(s.drop_first());
    }
}

/// After collapsing, no two `-` stand next to each other.
proof fn lemma_collapsed_no_doubles(s: Seq<char>)
    ensures
        spec_no_doubled_dash(spec_collapsed(s)),
    decreases s.len(),
{
    if s.len() == 0 {
    } else if s.len() >= 2 && s[0] == '-' && s[1] == '-' {
        lemma_collapsed_no_doubles(s.drop_first());
    } else {
        lemma_collapsed_no_doubles(s.drop_first());
        let c = spec_collapsed(s);
        let cp = spec_collapsed(s.drop_first());
        assert forall|i: int| 0 <= i && i + 1 < c.len() implies !(#[trigger] c[i] == '-' && c[i + 1] == '-') by {
            if i == 0 {
                assert(s.len() >= 2);
                lemma_collapsed_head(s.drop_first());
                assert(c[1] == cp[0]);
                assert(cp[0] == s[1]);
            } else {
                assert(c[i] == cp[i - 1]);
                assert(c[i + 1] == cp[i]);
            }
        }
    }
}

/// Trimming from the start leaves no leading `-`, keeps the last character,
/// and keeps `-` characters apart.
proof fn lemma_trim_start_wf(s: Seq<char>)
    ensures
        spec_trim_start(s).len() > 0 ==> spec_trim_start(s)[0] != '-',
        spec_no_doubled_dash(s) ==> spec_no_doubled_dash(spec_trim_start(s)),
        spec_trim_start(s).len() > 0 ==> s.len() > 0 && spec_trim_start(s).last() == s.last(),
    decreases s.len(),
{
    if s.len() > 0 && s[0] == '-' {
        lemma_trim_start_wf(s.drop_first());
        if spec_no_doubled_dash(s) {
            assert forall|i: int|
                0 <= i && i + 1 < s.drop_first().len() implies !(#[trigger] s.drop_first()[i] == '-'
                && s.drop_first()[i + 1] == '-') by {
                assert(s.drop_first()[i] == s[i + 1]);
                assert(s.drop_first()[i + 1] == s[i + 2]);
            }
        }
    }
}

/// Trimming from the end leaves no trailing `-`, keeps the first character,
/// and keeps `-` characters apart.
proof fn lemma_trim_end_wf(s: Seq<char>)
    ensures
        spec_trim_end(s).len() > 0 ==> spec_trim_end(s).last() != '-',
        spec_no_doubled_dash(s) ==> spec_no_doubled_dash(spec_trim_end(s)),
        spec_trim_end(s).len() > 0 ==> s.len() > 0 && spec_trim_end(s)[0] == s[0],
    decreases s.len(),
{
    if s.len() > 0 && s[s.len() - 1] == '-' {
        lemma_trim_end_wf(s.drop_last());
        if spec_no_doubled_dash(s) {
            assert forall|i: int|
                0 <= i && i + 1 < s.drop_last().len() implies !(#[trigger] s.drop_last()[i] == '-'
                && s.drop_last()[i + 1] == '-') by {
                assert(s.drop_last()[i] == s[i]);
                assert(s.drop_last()[i + 1] == s[i + 1]);
            }
        }
    }
}

/// A slug never begins with `-`, never ends with `-`, and never holds two
/// `-` in a row.
pub proof fn lemma_slug_well_formed(s: Seq<char>)
    ensures
        spec_slugify(s).len() > 0 ==> spec_slugify(s)[0] != '-',
        spec_slugify(s).len() > 0 ==> spec_slugify(s).last() != '-',
        spec_no_doubled_dash(spec_slugify(s)),
{
    let d = spec_dashed(lower_of(s));
    let c = spec_collapsed(d);
    let t = spec_trim_start(c);
    lemma_collapsed_no_doubles(d);
    lemma_trim_start_wf(c);
    lemma_trim_end_wf(t);
}

} // verus!
