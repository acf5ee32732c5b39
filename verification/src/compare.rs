//! Segment-wise comparison of version fields.

use vstd::prelude::*;

use crate::ComparisonResult;

verus! {

/// A decimal digit, the character class that forms numeric segments.
pub open spec fn is_digit(c: char) -> bool {
    '0' <= c && c <= '9'
}

/// An ASCII letter; a non-digit segment beginning with a letter counts as
/// an alphabetic suffix when the other field has ended.
pub open spec fn is_alpha(c: char) -> bool {
    ('a' <= c && c <= 'z') || ('A' <= c && c <= 'Z')
}

/// Every character of `s` is a decimal digit.
pub open spec fn all_digits(s: Seq<char>) -> bool {
    forall|i: int| 0 <= i < s.len() ==> is_digit(s[i])
}

/// No character of `s` is an ASCII letter.
pub open spec fn no_alpha(s: Seq<char>) -> bool {
    forall|i: int| 0 <= i < s.len() ==> !is_alpha(#[trigger] s[i])
}

/// The numeric value of a digit character.
pub open spec fn digit_val(c: char) -> int {
    c as int - '0' as int
}

/// The value of a digit string read as a decimal number, most significant
/// digit first; the empty string reads as zero.
pub open spec fn num_val(s: Seq<char>) -> int
    decreases s.len(),
{
    if s.len() == 0 {
        0
    } else {
        num_val(s.drop_last()) * 10 + digit_val(s.last())
    }
}

/// Three-way comparison of two mathematical integers.
pub open spec fn cmp_int(x: int, y: int) -> ComparisonResult {
    if x < y {
        ComparisonResult::Less
    } else if x > y {
        ComparisonResult::Greater
    } else {
        ComparisonResult::Equal
    }
}

/// Ten to the power `n`, the weight of the `n`-th digit from the right.
pub open spec fn pow10(n: nat) -> int
    decreases n,
{
    if n == 0 {
        1
    } else {
        10 * pow10((n - 1) as nat)
    }
}

pub proof fn lemma_pow10_pos(n: nat)
    ensures
        pow10(n) >= 1,
    decreases n,
{
    if n > 0 {
        lemma_pow10_pos((n - 1) as nat);
    }
}

pub proof fn lemma_pow10_mono(m: nat, n: nat)
    requires
        m <= n,
    ensures
        pow10(m) <= pow10(n),
    decreases n,
{
    if m < n {
        lemma_pow10_mono(m, (n - 1) as nat);
        lemma_pow10_pos((n - 1) as nat);
    }
}

/// A string of `n` digits reads as a number below ten to the `n`.
pub proof fn lemma_num_val_bound(s: Seq<char>)
    requires
        all_digits(s),
    ensures
        0 <= num_val(s) < pow10(s.len()),
    decreases s.len(),
{
    if s.len() > 0 {
        assert(all_digits(s.drop_last()));
        lemma_num_val_bound(s.drop_last());
        assert(is_digit(s.last()));
    }
}

/// A digit string with a non-zero leading digit reads as a number no
/// smaller than the weight of its leading digit.
pub proof fn lemma_num_val_lower(s: Seq<char>)
    requires
        all_digits(s),
        s.len() > 0,
        s[0] != '0',
    ensures
        num_val(s) >= pow10((s.len() - 1) as nat),
    decreases s.len(),
{
    if s.len() == 1 {
        assert(s.drop_last() =~= Seq::<char>::empty());
        assert(is_digit(s[0]));
        assert(s.last() == s[0]);
        assert('0' < s[0]);
        assert(digit_val(s[0]) >= 1);
        assert(num_val(s.drop_last()) == 0);
        assert(num_val(s) == digit_val(s[0]));
        assert(pow10((s.len() - 1) as nat) == 1);
    } else {
        let t = s.drop_last();
        assert(all_digits(t));
        assert(t[0] == s[0]);
        lemma_num_val_lower(t);
        assert(is_digit(s.last()));
        assert(digit_val(s.last()) >= 0);
        let p = pow10((s.len() - 2) as nat);
        assert(num_val(t) >= p);
        assert(num_val(s) == num_val(t) * 10 + digit_val(s.last()));
        assert(num_val(t) * 10 >= p * 10);
        assert(pow10((s.len() - 1) as nat) == 10 * p);
    }
}

/// Reading a digit string from the front: the leading digit carries the
/// weight of the remaining length.
pub proof fn lemma_num_val_front(s: Seq<char>)
    requires
        s.len() > 0,
    ensures
        num_val(s) == digit_val(s[0]) * pow10((s.len() - 1) as nat) + num_val(s.skip(1)),
    decreases s.len(),
{
    if s.len() == 1 {
        assert(s.drop_last() =~= Seq::<char>::empty());
        assert(s.skip(1) =~= Seq::<char>::empty());
        assert(num_val(s.drop_last()) == 0);
        assert(num_val(s.skip(1)) == 0);
        assert(pow10((s.len() - 1) as nat) == 1);
    } else {
        let t = s.drop_last();
        lemma_num_val_front(t);
        assert(t[0] == s[0]);
        assert(s.skip(1).drop_last() =~= t.skip(1));
        assert(s.skip(1).last() == s.last());
        let d0 = digit_val(s[0]);
        let p = pow10((s.len() - 2) as nat);
        assert(num_val(t) == d0 * p + num_val(t.skip(1)));
        assert(num_val(s) == num_val(t) * 10 + digit_val(s.last()));
        assert(num_val(s.skip(1)) == num_val(t.skip(1)) * 10 + digit_val(s.last()));
        assert(d0 * (10 * p) == (d0 * p) * 10) by (nonlinear_arith);
        assert(pow10((s.len() - 1) as nat) == 10 * p);
        assert((d0 * p + num_val(t.skip(1))) * 10 == (d0 * p) * 10 + num_val(t.skip(1)) * 10);
    }
}

/// A leading zero does not change the number a digit string reads as.
pub proof fn lemma_num_val_strip(s: Seq<char>)
    requires
        s.len() > 0,
        s[0] == '0',
    ensures
        num_val(s.skip(1)) == num_val(s),
{
    lemma_num_val_front(s);
}

/// Lexicographic comparison of two character sequences, by code point.
pub open spec fn cmp_lex(a: Seq<char>, b: Seq<char>) -> ComparisonResult
    decreases a.len(),
{
    if a.len() == 0 && b.len() == 0 {
        ComparisonResult::Equal
    } else if a.len() == 0 {
        ComparisonResult::Less
    } else if b.len() == 0 {
        ComparisonResult::Greater
    } else if a[0] < b[0] {
        ComparisonResult::Less
    } else if b[0] < a[0] {
        ComparisonResult::Greater
    } else {
        cmp_lex(a.skip(1), b.skip(1))
    }
}

/// Length of the leading run of characters whose digit-ness equals `d`.
pub open spec fn run_len(s: Seq<char>, d: bool) -> nat
    decreases s.len(),
{
    if s.len() == 0 || is_digit(s[0]) != d {
        0
    } else {
        1 + run_len(s.skip(1), d)
    }
}

/// Length of the first segment of `s`: the maximal leading run of
/// characters of one class, digit or non-digit.
pub open spec fn seg_len(s: Seq<char>) -> int {
    run_len(s, is_digit(s[0])) as int
}

/// The leading run is maximal: uniform in class and not extendable.
pub proof fn lemma_run_len(s: Seq<char>, d: bool)
    ensures
        run_len(s, d) <= s.len(),
        forall|i: int| 0 <= i < run_len(s, d) ==> is_digit(#[trigger] s[i]) == d,
        run_len(s, d) < s.len() ==> is_digit(s[run_len(s, d) as int]) != d,
        s.len() > 0 && is_digit(s[0]) == d ==> run_len(s, d) >= 1,
    decreases s.len(),
{
    if s.len() > 0 && is_digit(s[0]) == d {
        let t = s.skip(1);
        lemma_run_len(t, d);
        assert(forall|j: int| 0 <= j < t.len() ==> t[j] == s[j + 1]);
        assert forall|i: int| 0 <= i < run_len(s, d) implies is_digit(s[i]) == d by {
            if i > 0 {
                assert(is_digit(t[i - 1]) == d);
            }
        }
    }
}

/// Comparison of two segments, each a non-empty run of one class.
/// A digit segment outranks a non-digit segment; two digit segments
/// compare as numbers; two non-digit segments compare lexically.
pub open spec fn cmp_seg(x: Seq<char>, y: Seq<char>) -> ComparisonResult
    recommends
        x.len() > 0,
        y.len() > 0,
{
    if is_digit(x[0]) && !is_digit(y[0]) {
        ComparisonResult::Greater
    } else if !is_digit(x[0]) && is_digit(y[0]) {
        ComparisonResult::Less
    } else if is_digit(x[0]) {
        cmp_int(num_val(x), num_val(y))
    } else {
        cmp_lex(x, y)
    }
}

/// Segment-wise comparison of two version (or release, or epoch) fields.
///
/// The fields are consumed one maximal segment at a time; the first
/// unequal pair of segments decides.  When one field ends first, the
/// other's next segment decides: a digit segment or a separator makes the
/// longer field greater, while an alphabetic suffix makes it less.
pub open spec fn cmp_field(a: Seq<char>, b: Seq<char>) -> ComparisonResult
    decreases a.len() + b.len(),
    via cmp_field_decreases
{
    if a.len() == 0 && b.len() == 0 {
        ComparisonResult::Equal
    } else if a.len() == 0 {
        if is_alpha(b[0]) {
            ComparisonResult::Greater
        } else {
            ComparisonResult::Less
        }
    } else if b.len() == 0 {
        if is_alpha(a[0]) {
            ComparisonResult::Less
        } else {
            ComparisonResult::Greater
        }
    } else {
        let c = cmp_seg(a.take(seg_len(a)), b.take(seg_len(b)));
        if c is Equal {
            cmp_field(a.skip(seg_len(a)), b.skip(seg_len(b)))
        } else {
            c
        }
    }
}

#[via_fn]
proof fn cmp_field_decreases(a: Seq<char>, b: Seq<char>) {
    if a.len() > 0 && b.len() > 0 {
        lemma_run_len(a, is_digit(a[0]));
        lemma_run_len(b, is_digit(b[0]));
    }
}

/// An absent epoch counts as the number zero.
pub open spec fn epoch_or_zero(e: Option<Seq<char>>) -> Seq<char> {
    match e {
        Some(x) => x,
        None => seq!['0'],
    }
}

/// Comparison of two epoch fields: numeric when both are numbers,
/// segment-wise otherwise.
pub open spec fn cmp_epoch(x: Seq<char>, y: Seq<char>) -> ComparisonResult {
    if all_digits(x) && all_digits(y) {
        cmp_int(num_val(x), num_val(y))
    } else {
        cmp_field(x, y)
    }
}

/// Comparison of two whole version strings: epoch first, then version,
/// then release, each deciding only when the earlier fields tie.  A
/// release takes part only when both strings carry one.
pub open spec fn cmp_evr(a: Seq<char>, b: Seq<char>) -> ComparisonResult {
    let pa = crate::version::split_evr(a);
    let pb = crate::version::split_evr(b);
    let e = cmp_epoch(epoch_or_zero(pa.0), epoch_or_zero(pb.0));
    if !(e is Equal) {
        e
    } else {
        let v = cmp_field(pa.1, pb.1);
        if !(v is Equal) {
            v
        } else {
            match (pa.2, pb.2) {
                (Some(x), Some(y)) => cmp_field(x, y),
                _ => ComparisonResult::Equal,
            }
        }
    }
}

fn digit_char(c: char) -> (r: bool)
    ensures
        r == is_digit(c),
{
    '0' <= c && c <= '9'
}

fn alpha_char(c: char) -> (r: bool)
    ensures
        r == is_alpha(c),
{
    ('a' <= c && c <= 'z') || ('A' <= c && c <= 'Z')
}

fn digits_only(v: &Vec<char>) -> (r: bool)
    ensures
        r == all_digits(v@),
{
    let mut i: usize = 0;
    while i < v.len()
        invariant
            i <= v@.len(),
            forall|j: int| 0 <= j < i ==> is_digit(v@[j]),
        decreases v@.len() - i,
    {
        if !digit_char(v[i]) {
            return false;
        }
        i = i + 1;
    }
    true
}

/// How many `0` characters lead `v`; dropping them keeps its number.
fn count_zeros(v: &Vec<char>) -> (k: usize)
    ensures
        k <= v@.len(),
        k < v@.len() ==> v@[k as int] != '0',
        num_val(v@.skip(k as int)) == num_val(v@),
{
    proof {
        assert(v@.skip(0) =~= v@);
    }
    let mut i: usize = 0;
    while i < v.len() && v[i] == '0'
        invariant
            i <= v@.len(),
            num_val(v@.skip(i as int)) == num_val(v@),
        decreases v@.len() - i,
    {
        proof {
            let s = v@.skip(i as int);
            assert(s[0] == v@[i as int]);
            lemma_num_val_strip(s);
            assert(s.skip(1) =~= v@.skip(i + 1));
        }
        i = i + 1;
    }
    i
}

/// Numeric comparison of two digit strings of any length.
fn digits_cmp(x: &Vec<char>, y: &Vec<char>) -> (r: ComparisonResult)
    requires
        all_digits(x@),
        all_digits(y@),
    ensures
        r == cmp_int(num_val(x@), num_val(y@)),
{
    let kx = count_zeros(x);
    let ky = count_zeros(y);
    let lx = x.len() - kx;
    let ly = y.len() - ky;
    let ghost xs = x@.skip(kx as int);
    let ghost ys = y@.skip(ky as int);
    proof {
        assert(all_digits(xs));
        assert(all_digits(ys));
    }
    if lx < ly {
        proof {
            lemma_num_val_bound(xs);
            lemma_num_val_lower(ys);
            lemma_pow10_mono(xs.len(), (ys.len() - 1) as nat);
        }
        return ComparisonResult::Less;
    }
    if ly < lx {
        proof {
            lemma_num_val_bound(ys);
            lemma_num_val_lower(xs);
            lemma_pow10_mono(ys.len(), (xs.len() - 1) as nat);
        }
        return ComparisonResult::Greater;
    }
    proof {
        assert(xs.skip(0) =~= xs);
        assert(ys.skip(0) =~= ys);
    }
    let mut t: usize = 0;
    while t < lx
        invariant
            t <= lx,
            lx == ly,
            kx + lx == x@.len(),
            ky + ly == y@.len(),
            x@.len() <= usize::MAX,
            y@.len() <= usize::MAX,
            xs == x@.skip(kx as int),
            ys == y@.skip(ky as int),
            all_digits(xs),
            all_digits(ys),
            num_val(xs) == num_val(x@),
            num_val(ys) == num_val(y@),
            cmp_int(num_val(xs), num_val(ys)) == cmp_int(
                num_val(xs.skip(t as int)),
                num_val(ys.skip(t as int)),
            ),
        decreases lx - t,
    {
        let cx = x[kx + t];
        let cy = y[ky + t];
        let ghost xt = xs.skip(t as int);
        let ghost yt = ys.skip(t as int);
        proof {
            assert(xt[0] == xs[t as int] && xs[t as int] == x@[kx + t]);
            assert(yt[0] == ys[t as int] && ys[t as int] == y@[ky + t]);
            lemma_num_val_front(xt);
            lemma_num_val_front(yt);
            assert(all_digits(xt.skip(1)));
            assert(all_digits(yt.skip(1)));
            lemma_num_val_bound(xt.skip(1));
            lemma_num_val_bound(yt.skip(1));
            lemma_pow10_pos((xt.len() - 1) as nat);
        }
        if cx != cy {
            proof {
                let p = pow10((xt.len() - 1) as nat);
                let dx = digit_val(cx);
                let dy = digit_val(cy);
                assert(xt.len() == yt.len());
                if cx < cy {
                    assert(dx * p + p <= dy * p) by (nonlinear_arith)
                        requires
                            dx + 1 <= dy,
                            p >= 1,
                    ;
                } else {
                    assert(dy * p + p <= dx * p) by (nonlinear_arith)
                        requires
                            dy + 1 <= dx,
                            p >= 1,
                    ;
                }
            }
            if cx < cy {
                return ComparisonResult::Less;
            } else {
                return ComparisonResult::Greater;
            }
        }
        proof {
            assert(xt.skip(1) =~= xs.skip(t + 1));
            assert(yt.skip(1) =~= ys.skip(t + 1));
        }
        t = t + 1;
    }
    proof {
        assert(xs.skip(lx as int) =~= Seq::<char>::empty());
        assert(ys.skip(ly as int) =~= Seq::<char>::empty());
        assert(num_val(Seq::<char>::empty()) == 0);
    }
    ComparisonResult::Equal
}

/// Lexicographic comparison, executably.
fn lex_cmp(x: &Vec<char>, y: &Vec<char>) -> (r: ComparisonResult)
    ensures
        r == cmp_lex(x@, y@),
{
    proof {
        assert(x@.skip(0) =~= x@);
        assert(y@.skip(0) =~= y@);
    }
    let mut i: usize = 0;
    loop
        invariant
            i <= x@.len(),
            i <= y@.len(),
            cmp_lex(x@, y@) == cmp_lex(x@.skip(i as int), y@.skip(i as int)),
        decreases x@.len() - i,
    {
        let ghost xs = x@.skip(i as int);
        let ghost ys = y@.skip(i as int);
        if i == x.len() && i == y.len() {
            return ComparisonResult::Equal;
        }
        if i == x.len() {
            return ComparisonResult::Less;
        }
        if i == y.len() {
            return ComparisonResult::Greater;
        }
        let cx = x[i];
        let cy = y[i];
        proof {
            assert(xs[0] == x@[i as int]);
            assert(ys[0] == y@[i as int]);
        }
        if cx < cy {
            return ComparisonResult::Less;
        }
        if cy < cx {
            return ComparisonResult::Greater;
        }
        proof {
            assert(xs.skip(1) =~= x@.skip(i + 1));
            assert(ys.skip(1) =~= y@.skip(i + 1));
        }
        i = i + 1;
    }
}

/// End of the run of class `d` that starts at `from`.
fn run_end(v: &Vec<char>, from: usize, d: bool) -> (e: usize)
    requires
        from <= v@.len(),
    ensures
        from <= e <= v@.len(),
        e - from == run_len(v@.skip(from as int), d),
{
    let mut e = from;
    while e < v.len() && digit_char(v[e]) == d
        invariant
            from <= e <= v@.len(),
            run_len(v@.skip(from as int), d) == (e - from) + run_len(v@.skip(e as int), d),
        decreases v@.len() - e,
    {
        proof {
            let s = v@.skip(e as int);
            assert(s[0] == v@[e as int]);
            assert(s.skip(1) =~= v@.skip(e + 1));
        }
        e = e + 1;
    }
    e
}

/// Comparison of two extracted segments.
fn seg_cmp(x: &Vec<char>, y: &Vec<char>) -> (r: ComparisonResult)
    requires
        x@.len() > 0,
        y@.len() > 0,
        is_digit(x@[0]) ==> all_digits(x@),
        is_digit(y@[0]) ==> all_digits(y@),
    ensures
        r == cmp_seg(x@, y@),
{
    let dx = digit_char(x[0]);
    let dy = digit_char(y[0]);
    if dx && !dy {
        ComparisonResult::Greater
    } else if !dx && dy {
        ComparisonResult::Less
    } else if dx {
        digits_cmp(x, y)
    } else {
        lex_cmp(x, y)
    }
}

/// Segment-wise comparison of two whole fields.
pub(crate) fn field_cmp(a: &Vec<char>, b: &Vec<char>) -> (r: ComparisonResult)
    ensures
        r == cmp_field(a@, b@),
{
    proof {
        assert(a@.skip(0) =~= a@);
        assert(b@.skip(0) =~= b@);
    }
    let mut i: usize = 0;
    let mut j: usize = 0;
    loop
        invariant
            i <= a@.len(),
            j <= b@.len(),
            cmp_field(a@, b@) == cmp_field(a@.skip(i as int), b@.skip(j as int)),
        decreases a@.len() - i + b@.len() - j,
    {
        let ghost sa = a@.skip(i as int);
        let ghost sb = b@.skip(j as int);
        if i == a.len() && j == b.len() {
            return ComparisonResult::Equal;
        }
        if i == a.len() {
            proof {
                assert(sb[0] == b@[j as int]);
            }
            if alpha_char(b[j]) {
                return ComparisonResult::Greater;
            } else {
                return ComparisonResult::Less;
            }
        }
        if j == b.len() {
            proof {
                assert(sa[0] == a@[i as int]);
            }
            if alpha_char(a[i]) {
                return ComparisonResult::Less;
            } else {
                return ComparisonResult::Greater;
            }
        }
        let da = digit_char(a[i]);
        let db = digit_char(b[j]);
        let ea = run_end(a, i, da);
        let eb = run_end(b, j, db);
        let xa = crate::text::subvec(a, i, ea);
        let xb = crate::text::subvec(b, j, eb);
        proof {
            assert(sa[0] == a@[i as int]);
            assert(sb[0] == b@[j as int]);
            lemma_run_len(sa, da);
            lemma_run_len(sb, db);
            assert(xa@ =~= sa.take(seg_len(sa)));
            assert(xb@ =~= sb.take(seg_len(sb)));
            assert(xa@[0] == sa[0]);
            assert(xb@[0] == sb[0]);
            assert forall|k: int| 0 <= k < xa@.len() implies is_digit(#[trigger] xa@[k]) == da by {
                assert(xa@[k] == sa[k]);
            }
            assert forall|k: int| 0 <= k < xb@.len() implies is_digit(#[trigger] xb@[k]) == db by {
                assert(xb@[k] == sb[k]);
            }
        }
        let c = seg_cmp(&xa, &xb);
        match c {
            ComparisonResult::Equal => {
                proof {
                    assert(sa.skip(seg_len(sa)) =~= a@.skip(ea as int));
                    assert(sb.skip(seg_len(sb)) =~= b@.skip(eb as int));
                }
                i = ea;
                j = eb;
            },
            _ => {
                return c;
            },
        }
    }
}

/// Comparison of two epoch fields, executably.
fn epoch_cmp(x: &Vec<char>, y: &Vec<char>) -> (r: ComparisonResult)
    ensures
        r == cmp_epoch(x@, y@),
{
    if digits_only(x) && digits_only(y) {
        digits_cmp(x, y)
    } else {
        field_cmp(x, y)
    }
}

/// Compares two version strings: epoch, then version, then release.
/// Produces `Less` when `a` denotes the older version, `Greater` when
/// `b` does, and `Equal` when neither is newer.
pub fn compare_versions(a: &str, b: &str) -> (r: ComparisonResult)
    ensures
        r == cmp_evr(a@, b@),
{
    let va = crate::text::chars_of(a);
    let vb = crate::text::chars_of(b);
    let (ea, ver_a, rel_a) = crate::version::split_fields(&va);
    let (eb, ver_b, rel_b) = crate::version::split_fields(&vb);
    let xa: Vec<char> = match ea {
        Some(e) => e,
        None => {
            let mut z: Vec<char> = Vec::new();
            z.push('0');
            z
        },
    };
    let xb: Vec<char> = match eb {
        Some(e) => e,
        None => {
            let mut z: Vec<char> = Vec::new();
            z.push('0');
            z
        },
    };
    proof {
        assert(xa@ =~= epoch_or_zero(crate::version::split_evr(a@).0));
        assert(xb@ =~= epoch_or_zero(crate::version::split_evr(b@).0));
    }
    let e = epoch_cmp(&xa, &xb);
    match e {
        ComparisonResult::Equal => {},
        _ => {
            return e;
        },
    }
    let v = field_cmp(&ver_a, &ver_b);
    match v {
        ComparisonResult::Equal => {},
        _ => {
            return v;
        },
    }
    match (rel_a, rel_b) {
        (Some(x), Some(y)) => field_cmp(&x, &y),
        _ => ComparisonResult::Equal,
    }
}

} // verus!
