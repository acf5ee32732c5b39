//! Laws of the version order: how `cmp_evr` behaves across calls.

use vstd::prelude::*;

use crate::ComparisonResult;
use crate::compare::all_digits;
use crate::compare::cmp_epoch;
use crate::compare::cmp_evr;
use crate::compare::cmp_field;
use crate::compare::cmp_int;
use crate::compare::cmp_lex;
use crate::compare::cmp_seg;
use crate::compare::epoch_or_zero;
use crate::compare::is_alpha;
use crate::compare::is_digit;
use crate::compare::lemma_run_len;
use crate::compare::no_alpha;
use crate::compare::num_val;
use crate::compare::run_len;
use crate::compare::seg_len;
use crate::flip;
use crate::version::index_of_first;
use crate::version::lemma_index_of_first;
use crate::version::split_evr;

verus! {

proof fn lemma_cmp_lex_refl(s: Seq<char>)
    ensures
        cmp_lex(s, s) == ComparisonResult::Equal,
    decreases s.len(),
{
    if s.len() > 0 {
        lemma_cmp_lex_refl(s.skip(1));
    }
}

proof fn lemma_cmp_field_refl(s: Seq<char>)
    ensures
        cmp_field(s, s) == ComparisonResult::Equal,
    decreases s.len(),
{
    if s.len() > 0 {
        lemma_run_len(s, is_digit(s[0]));
        let k = seg_len(s);
        lemma_cmp_lex_refl(s.take(k));
        lemma_cmp_field_refl(s.skip(k));
    }
}

proof fn lemma_cmp_epoch_refl(s: Seq<char>)
    ensures
        cmp_epoch(s, s) == ComparisonResult::Equal,
{
    if !(all_digits(s) && all_digits(s)) {
        lemma_cmp_field_refl(s);
    }
}

/// Comparing any version string with itself yields `Equal`.
pub proof fn lemma_compare_reflexive(s: Seq<char>)
    ensures
        cmp_evr(s, s) == ComparisonResult::Equal,
{
    let p = split_evr(s);
    lemma_cmp_epoch_refl(epoch_or_zero(p.0));
    lemma_cmp_field_refl(p.1);
    if p.2 is Some {
        lemma_cmp_field_refl(p.2->0);
    }
}

proof fn lemma_cmp_lex_flip(a: Seq<char>, b: Seq<char>)
    ensures
        cmp_lex(b, a) == flip(cmp_lex(a, b)),
    decreases a.len() + b.len(),
{
    if a.len() > 0 && b.len() > 0 && a[0] == b[0] {
        lemma_cmp_lex_flip(a.skip(1), b.skip(1));
    }
}

proof fn lemma_cmp_field_flip(a: Seq<char>, b: Seq<char>)
    ensures
        cmp_field(b, a) == flip(cmp_field(a, b)),
    decreases a.len() + b.len(),
{
    if a.len() > 0 && b.len() > 0 {
        lemma_run_len(a, is_digit(a[0]));
        lemma_run_len(b, is_digit(b[0]));
        let xa = a.take(seg_len(a));
        let xb = b.take(seg_len(b));
        lemma_cmp_lex_flip(xa, xb);
        if cmp_seg(xa, xb) is Equal {
            lemma_cmp_field_flip(a.skip(seg_len(a)), b.skip(seg_len(b)));
        }
    }
}

proof fn lemma_cmp_epoch_flip(a: Seq<char>, b: Seq<char>)
    ensures
        cmp_epoch(b, a) == flip(cmp_epoch(a, b)),
{
    if !(all_digits(a) && all_digits(b)) {
        lemma_cmp_field_flip(a, b);
    }
}

/// Swapping the operands flips the outcome: in particular the first
/// string is older than the second exactly when the second is newer
/// than the first.
pub proof fn lemma_compare_antisymmetric(a: Seq<char>, b: Seq<char>)
    ensures
        cmp_evr(b, a) == flip(cmp_evr(a, b)),
        cmp_evr(a, b) is Less <==> cmp_evr(b, a) is Greater,
{
    let pa = split_evr(a);
    let pb = split_evr(b);
    lemma_cmp_epoch_flip(epoch_or_zero(pa.0), epoch_or_zero(pb.0));
    lemma_cmp_field_flip(pa.1, pb.1);
    if pa.2 is Some && pb.2 is Some {
        lemma_cmp_field_flip(pa.2->0, pb.2->0);
    }
}

/// Splitting and reassembling is the identity: when a string holds a
/// non-empty epoch before its first `-`, the three fields joined back
/// with their separators give the string back.
pub proof fn lemma_parse_round_trip(s: Seq<char>)
    requires
        index_of_first(s, ':') is Some,
        index_of_first(s, '-') is Some,
        index_of_first(s, ':')->0 > 0,
        index_of_first(s, ':')->0 < index_of_first(s, '-')->0,
    ensures
        split_evr(s).0 is Some,
        split_evr(s).2 is Some,
        split_evr(s).0->0 + seq![':'] + split_evr(s).1 + seq!['-'] + split_evr(s).2->0 == s,
{
    lemma_index_of_first(s, ':');
    lemma_index_of_first(s, '-');
    let j = index_of_first(s, ':')->0;
    let d = index_of_first(s, '-')->0;
    assert(s.take(j) + seq![':'] + s.subrange(j + 1, d) + seq!['-'] + s.subrange(
        d + 1,
        s.len() as int,
    ) =~= s);
}

/// A numerically larger epoch decides the comparison by itself, whatever
/// the version and release fields hold.
pub proof fn lemma_epoch_dominance(a: Seq<char>, b: Seq<char>)
    requires
        split_evr(a).0 is Some,
        split_evr(b).0 is Some,
        all_digits(split_evr(a).0->0),
        all_digits(split_evr(b).0->0),
        num_val(split_evr(a).0->0) > num_val(split_evr(b).0->0),
    ensures
        cmp_evr(a, b) == ComparisonResult::Greater,
{
}

/// At equal epoch and version, a release on one side only does not
/// count: the strings compare as equal.
pub proof fn lemma_release_indifference(a: Seq<char>, b: Seq<char>)
    requires
        split_evr(a).0 == split_evr(b).0,
        split_evr(a).1 == split_evr(b).1,
        split_evr(a).2 is None || split_evr(b).2 is None,
    ensures
        cmp_evr(a, b) == ComparisonResult::Equal,
{
    lemma_cmp_epoch_refl(epoch_or_zero(split_evr(a).0));
    lemma_cmp_field_refl(split_evr(a).1);
}

proof fn lemma_cmp_lex_eq(a: Seq<char>, b: Seq<char>)
    requires
        cmp_lex(a, b) is Equal,
    ensures
        a == b,
    decreases a.len() + b.len(),
{
    if a.len() > 0 && b.len() > 0 && a[0] == b[0] {
        lemma_cmp_lex_eq(a.skip(1), b.skip(1));
        assert(a =~= seq![a[0]] + a.skip(1));
        assert(b =~= seq![b[0]] + b.skip(1));
    } else {
        assert(a =~= b);
    }
}

proof fn lemma_cmp_lex_trans(a: Seq<char>, b: Seq<char>, c: Seq<char>)
    requires
        cmp_lex(a, b) is Less,
        cmp_lex(b, c) is Less,
    ensures
        cmp_lex(a, c) is Less,
    decreases a.len() + b.len() + c.len(),
{
    if a.len() > 0 && b.len() > 0 && c.len() > 0 && a[0] == b[0] && b[0] == c[0] {
        lemma_cmp_lex_trans(a.skip(1), b.skip(1), c.skip(1));
    }
}

/// Segments that compare equal are interchangeable against any third
/// segment.
proof fn lemma_cmp_seg_equal(x: Seq<char>, y: Seq<char>, z: Seq<char>)
    requires
        cmp_seg(x, y) is Equal,
        x.len() > 0,
        y.len() > 0,
    ensures
        cmp_seg(x, z) == cmp_seg(y, z),
        cmp_seg(z, x) == cmp_seg(z, y),
{
    if !is_digit(x[0]) && !is_digit(y[0]) {
        lemma_cmp_lex_eq(x, y);
    }
}

proof fn lemma_cmp_seg_less(x: Seq<char>, y: Seq<char>, z: Seq<char>)
    requires
        cmp_seg(x, y) is Less,
        cmp_seg(y, z) is Less,
    ensures
        cmp_seg(x, z) is Less,
{
    if !is_digit(x[0]) && !is_digit(y[0]) && !is_digit(z[0]) {
        lemma_cmp_lex_trans(x, y, z);
    }
}

/// Restricting a sequence keeps it free of letters.
proof fn lemma_no_alpha_parts(s: Seq<char>, lo: int, hi: int)
    requires
        no_alpha(s),
        0 <= lo <= hi <= s.len(),
    ensures
        no_alpha(s.subrange(lo, hi)),
{
    assert forall|i: int| 0 <= i < hi - lo implies !is_alpha(s.subrange(lo, hi)[i]) by {
        assert(s.subrange(lo, hi)[i] == s[lo + i]);
    }
}

/// Transitivity of the field order on letter-free fields, together with
/// the substitution property of its `Equal` outcome.
proof fn lemma_cmp_field_trans(a: Seq<char>, b: Seq<char>, c: Seq<char>)
    requires
        no_alpha(a),
        no_alpha(b),
        no_alpha(c),
    ensures
        cmp_field(a, b) is Equal ==> cmp_field(a, c) == cmp_field(b, c),
        cmp_field(b, c) is Equal ==> cmp_field(a, c) == cmp_field(a, b),
        cmp_field(a, b) is Less && cmp_field(b, c) is Less ==> cmp_field(a, c) is Less,
    decreases a.len() + b.len() + c.len(),
{
    if a.len() > 0 && b.len() > 0 && c.len() > 0 {
        lemma_run_len(a, is_digit(a[0]));
        lemma_run_len(b, is_digit(b[0]));
        lemma_run_len(c, is_digit(c[0]));
        let xa = a.take(seg_len(a));
        let xb = b.take(seg_len(b));
        let xc = c.take(seg_len(c));
        let ta = a.skip(seg_len(a));
        let tb = b.skip(seg_len(b));
        let tc = c.skip(seg_len(c));
        lemma_no_alpha_parts(a, seg_len(a), a.len() as int);
        lemma_no_alpha_parts(b, seg_len(b), b.len() as int);
        lemma_no_alpha_parts(c, seg_len(c), c.len() as int);
        assert(ta =~= a.subrange(seg_len(a), a.len() as int));
        assert(tb =~= b.subrange(seg_len(b), b.len() as int));
        assert(tc =~= c.subrange(seg_len(c), c.len() as int));
        if cmp_seg(xa, xb) is Equal {
            lemma_cmp_seg_equal(xa, xb, xc);
            if cmp_seg(xb, xc) is Equal {
                lemma_cmp_field_trans(ta, tb, tc);
            }
        } else {
            if cmp_seg(xb, xc) is Equal {
                lemma_cmp_seg_equal(xb, xc, xa);
            } else if cmp_seg(xa, xb) is Less && cmp_seg(xb, xc) is Less {
                lemma_cmp_seg_less(xa, xb, xc);
            }
        }
    }
}

/// On non-empty fields the epoch comparison is the field comparison:
/// two numeric epochs compare as numbers either way.
proof fn lemma_cmp_epoch_as_field(x: Seq<char>, y: Seq<char>)
    requires
        x.len() > 0,
        y.len() > 0,
    ensures
        cmp_epoch(x, y) == cmp_field(x, y),
{
    if all_digits(x) && all_digits(y) {
        assert(is_digit(x[0]));
        assert(is_digit(y[0]));
        lemma_run_len(x, is_digit(x[0]));
        lemma_run_len(y, is_digit(y[0]));
        assert(run_len(x, is_digit(x[0])) == x.len());
        assert(run_len(y, is_digit(y[0])) == y.len());
        assert(x.take(seg_len(x)) =~= x);
        assert(y.take(seg_len(y)) =~= y);
        assert(cmp_seg(x.take(seg_len(x)), y.take(seg_len(y))) == cmp_seg(x, y));
        assert(cmp_seg(x, y) == cmp_int(num_val(x), num_val(y)));
        if cmp_seg(x, y) is Equal {
            assert(x.skip(seg_len(x)) =~= Seq::<char>::empty());
            assert(y.skip(seg_len(y)) =~= Seq::<char>::empty());
            assert(cmp_field(x.skip(seg_len(x)), y.skip(seg_len(y))) == ComparisonResult::Equal);
        }
    }
}

/// The version order is transitive over strings free of letters whose
/// release fields are uniformly present or uniformly absent: a string
/// no newer than a second, itself no newer than a third, is no newer
/// than the third.
pub proof fn lemma_compare_transitive(a: Seq<char>, b: Seq<char>, c: Seq<char>)
    requires
        no_alpha(a),
        no_alpha(b),
        no_alpha(c),
        split_evr(a).2 is Some <==> split_evr(b).2 is Some,
        split_evr(b).2 is Some <==> split_evr(c).2 is Some,
        !(cmp_evr(a, b) is Greater),
        !(cmp_evr(b, c) is Greater),
    ensures
        !(cmp_evr(a, c) is Greater),
{
    let pa = split_evr(a);
    let pb = split_evr(b);
    let pc = split_evr(c);
    let ea = epoch_or_zero(pa.0);
    let eb = epoch_or_zero(pb.0);
    let ec = epoch_or_zero(pc.0);
    lemma_split_field_shapes(a);
    lemma_split_field_shapes(b);
    lemma_split_field_shapes(c);
    lemma_cmp_epoch_as_field(ea, eb);
    lemma_cmp_epoch_as_field(eb, ec);
    lemma_cmp_epoch_as_field(ea, ec);
    lemma_cmp_field_trans(ea, eb, ec);
    if cmp_field(ea, eb) is Equal && cmp_field(eb, ec) is Equal {
        lemma_cmp_field_trans(pa.1, pb.1, pc.1);
        if cmp_field(pa.1, pb.1) is Equal && cmp_field(pb.1, pc.1) is Equal {
            if pa.2 is Some {
                lemma_cmp_field_trans(pa.2->0, pb.2->0, pc.2->0);
            }
        }
    }
}

/// The fields that `split_evr` yields from a letter-free string are
/// letter-free, and a present epoch is never empty.
proof fn lemma_split_field_shapes(s: Seq<char>)
    requires
        no_alpha(s),
    ensures
        no_alpha(epoch_or_zero(split_evr(s).0)),
        epoch_or_zero(split_evr(s).0).len() > 0,
        no_alpha(split_evr(s).1),
        split_evr(s).2 is Some ==> no_alpha(split_evr(s).2->0),
{
    let p = split_evr(s);
    if p.0 is Some {
        let colon = index_of_first(s, ':');
        assert(p.0->0 =~= s.subrange(0, colon->0));
        lemma_index_of_first(s, ':');
        lemma_no_alpha_parts(s, 0, colon->0);
    } else {
        assert(!is_alpha('0'));
        assert(forall|i: int| 0 <= i < seq!['0'].len() ==> !is_alpha(seq!['0'][i]));
    }
    lemma_index_of_first(s, ':');
    lemma_index_of_first(s, '-');
    let colon = index_of_first(s, ':');
    let dash = index_of_first(s, '-');
    let has_sep = colon is Some && (dash is None || colon->0 < dash->0);
    let vstart: int = if has_sep {
        colon->0 + 1
    } else {
        0
    };
    match dash {
        Some(d) => {
            lemma_no_alpha_parts(s, vstart, d);
            lemma_no_alpha_parts(s, d + 1, s.len() as int);
        },
        None => {
            lemma_no_alpha_parts(s, vstart, s.len() as int);
        },
    }
}

} // verus!
