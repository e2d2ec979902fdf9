//! Interval sets: normalized ascending unions of non-overlapping intervals.

use vstd::prelude::*;
use vstd::string::{StrSliceExecFns, StringExecFns};

use crate::fp::Float;
use crate::interval::{
    in_pair, iv_display_rel, iv_parse, lemma_wf_ends, models_of, quot_in, rskip_ws,
    sign_class_of, skip_ws, Interval, ParseIntervalError, SignClass,
};
use crate::model::{
    lemma_x_refl, lemma_x_total, lemma_x_trans, x_add, x_eq, x_is_nan, x_is_zero, x_le, x_lt,
    x_mul, x_neg, x_one, x_sign, x_sub, x_zero, Xv,
};

verus! {

/// Interval set parsing error enum.
#[derive(Clone, Copy, Debug, PartialEq, Eq, Structural)]
pub enum ParseIntervalSetError {
    /// The first character of the string is anything other than `'{'`.
    MissingOpeningBraces,
    /// The last character of the string is anything other than `'}'`.
    MissingClosingBraces,
    /// There was an error while parsing an interval.
    IntervalsParseError,
}

/// The canonical form an interval set keeps: no empty members, and members
/// in strictly ascending order with a gap between one upper bound and the
/// next lower bound (overlapping or touching members would have been
/// merged).
pub open spec fn is_normalized(s: Seq<(Xv, Xv)>) -> bool {
    &&& forall|i: int| 0 <= i < s.len() ==> !x_is_nan((#[trigger] s[i]).0)
    &&& forall|i: int| 0 <= i < s.len() - 1 ==> x_lt((#[trigger] s[i]).1, s[i + 1].0)
}

/// The bound models of the logarithm of an interval with bound models
/// `(lo, hi)` at precision `p`, as `Interval::log` computes it.
pub open spec fn log_pair<B: Float>(lo: Xv, hi: Xv, p: usize) -> (Xv, Xv) {
    if sign_class_of(lo, hi) is Zero || sign_class_of(lo, hi) is Negative {
        (Xv::Nan, Xv::Nan)
    } else if sign_class_of(lo, hi) == SignClass::Positive(false) {
        (B::log_dn(lo, p), B::log_up(hi, p))
    } else {
        (Xv::NInf, B::log_up(hi, p))
    }
}

/// The bound models of the exponential of an interval with bound models
/// `(lo, hi)` at precision `p`, as `Interval::exp` computes it.
pub open spec fn exp_pair<B: Float>(lo: Xv, hi: Xv, p: usize) -> (Xv, Xv) {
    (B::exp_dn(lo, p), B::exp_up(hi, p))
}

/// Whether the point `x` lies in some member of the list `s` of bound-model
/// pairs: the set, as a set of points, contains `x`.
pub open spec fn set_contains(s: Seq<(Xv, Xv)>, x: Xv) -> bool {
    exists|i: int| 0 <= i < s.len() && in_pair(x, (#[trigger] s[i]).0, s[i].1)
}

/// Whatever output the pair operation can produce for member models
/// `(li, hi_)` and `(lj, hj)` at precision `pi`/`pj`, that output contains
/// the point `q`. `binary_op` turns this into membership in its result.
pub open spec fn op_yields<B: Float, OP: Fn(Interval<B>, Interval<B>) -> Vec<Interval<B>>>(
    op: OP,
    li: Xv,
    hi_: Xv,
    pi: usize,
    lj: Xv,
    hj: Xv,
    pj: usize,
    q: Xv,
) -> bool {
    forall|x: Interval<B>, y: Interval<B>, out: Vec<Interval<B>>|
        x.lo_m() == li && x.hi_m() == hi_ && x.prec() == pi && y.lo_m() == lj && y.hi_m() == hj
            && y.prec() == pj && #[trigger] call_ensures(op, (x, y), out) ==> set_contains(
            models_of(out@),
            q,
        )
}

/// All the intervals of `s` share the precision `p`.
pub open spec fn all_prec<B: Float>(s: Seq<Interval<B>>, p: usize) -> bool {
    forall|i: int| 0 <= i < s.len() ==> (#[trigger] s[i]).prec() == p
}

/// All the intervals of `s` share one precision.
pub open spec fn uniform_prec<B: Float>(s: Seq<Interval<B>>) -> bool {
    forall|a: int, b: int|
        0 <= a < s.len() && 0 <= b < s.len() ==> (#[trigger] s[a]).prec() == (#[trigger] s[b]).prec()
}

/// Index after the run of `'{'` characters starting at `i`.
pub open spec fn skip_obrace(s: Seq<char>, i: int) -> int
    decreases s.len() - i,
{
    if 0 <= i < s.len() && s[i] == '{' {
        skip_obrace(s, i + 1)
    } else {
        i
    }
}

/// Index before the run of `'}'` characters ending at `j`, within `(i, j]`.
pub open spec fn rskip_cbrace(s: Seq<char>, i: int, j: int) -> int
    decreases j,
{
    if 0 <= i < j <= s.len() && s[j - 1] == '}' {
        rskip_cbrace(s, i, j - 1)
    } else {
        j
    }
}

/// The index of the first semicolon in `s[i..j)`, or `j` if there is none.
pub open spec fn first_semi(s: Seq<char>, i: int, j: int) -> int
    decreases j - i,
{
    if i < j && 0 <= i && j <= s.len() {
        if s[i] == ';' {
            i
        } else {
            first_semi(s, i + 1, j)
        }
    } else {
        j
    }
}

/// The first semicolon of a scan lies within the scanned range.
pub proof fn lemma_first_semi_bounds(s: Seq<char>, i: int, j: int)
    requires
        i <= j,
    ensures
        i <= first_semi(s, i, j) <= j,
    decreases j - i,
{
    if i < j && 0 <= i && j <= s.len() && s[i] != ';' {
        lemma_first_semi_bounds(s, i + 1, j);
    }
}

/// Before the first semicolon is reached, the first semicolon of the rest
/// is the first semicolon of the whole range.
proof fn lemma_first_semi_step(s: Seq<char>, i: int, k: int, j: int)
    requires
        0 <= i <= k < j <= s.len(),
        s[k] != ';',
        first_semi(s, i, j) == first_semi(s, k, j),
    ensures
        first_semi(s, i, j) == first_semi(s, k + 1, j),
{
}

/// The semicolon-separated members of `s[i..j)`, each trimmed and parsed by
/// the interval grammar; `None` when any member fails.
pub open spec fn set_members<B: Float>(s: Seq<char>, i: int, j: int, p: usize) -> Option<
    Seq<(Xv, Xv)>,
>
    decreases j - i,
    via set_members_dec::<B>
{
    let k = first_semi(s, i, j);
    let a = crate::interval::skip_ws(s, i, k);
    let b = crate::interval::rskip_ws(s, a, k);
    let piece = iv_parse::<B>(s.subrange(a, b), p);
    if k >= j {
        match piece {
            Result::Ok(pr) => Option::Some(seq![pr]),
            Result::Err(_) => Option::None,
        }
    } else {
        match (piece, set_members::<B>(s, k + 1, j, p)) {
            (Result::Ok(pr), Option::Some(rest)) => Option::Some(seq![pr] + rest),
            _ => Option::None,
        }
    }
}

/// Termination witness for `set_members`: the recursion steps past the
/// first semicolon, which lies within the range.
#[via_fn]
proof fn set_members_dec<B: Float>(s: Seq<char>, i: int, j: int, p: usize) {
    if i <= j {
        lemma_first_semi_bounds(s, i, j);
    }
}

/// The outcome the interval-set grammar assigns to `s` at precision `p`:
/// the raw member bound-model pairs before normalization, or the error kind
/// among the three that the grammar distinguishes.
pub open spec fn ivs_parse<B: Float>(s: Seq<char>, p: usize) -> Result<
    Seq<(Xv, Xv)>,
    ParseIntervalSetError,
> {
    if iv_parse::<B>(s, p) is Ok {
        Result::Ok(seq![iv_parse::<B>(s, p)->Ok_0])
    } else if s.len() == 0 || s[0] != '{' {
        Result::Err(ParseIntervalSetError::MissingOpeningBraces)
    } else {
        let i = crate::interval::skip_ws(s, skip_obrace(s, 0), s.len() as int);
        if i == s.len() || s[s.len() - 1] != '}' {
            Result::Err(ParseIntervalSetError::MissingClosingBraces)
        } else {
            let j = crate::interval::rskip_ws(s, i, rskip_cbrace(s, i, s.len() as int));
            if i == j {
                Result::Ok(Seq::empty())
            } else {
                match set_members::<B>(s, i, j, p) {
                    Option::Some(ms) => Result::Ok(ms),
                    Option::None => Result::Err(ParseIntervalSetError::IntervalsParseError),
                }
            }
        }
    }
}

/// Interval set struct.
///
/// Represents a set of non-intersecting intervals.
#[derive(Debug)]
pub struct IntervalSet<BOUND: Float> {
    /// Non-intersecting intervals in strictly ascending order.
    pub intervals: Vec<Interval<BOUND>>,
}

impl<BOUND: Float> Clone for IntervalSet<BOUND> {
    /// Clones the set; the copy carries the same member bound values.
    fn clone(&self) -> (r: Self)
        ensures
            models_of(r.intervals@) =~= models_of(self.intervals@),
            r.intervals@.len() == self.intervals@.len(),
            forall|i: int|
                0 <= i < self.intervals@.len() ==> (#[trigger] r.intervals@[i]).prec()
                    == self.intervals@[i].prec(),
    {
        let mut v: Vec<Interval<BOUND>> = Vec::new();
        let n = self.intervals.len();
        let mut i: usize = 0;
        while i < n
            invariant
                n == self.intervals@.len(),
                0 <= i <= n,
                v@.len() == i,
                forall|j: int|
                    0 <= j < i ==> (#[trigger] v@[j]).lo_m() == self.intervals@[j].lo_m()
                        && v@[j].hi_m() == self.intervals@[j].hi_m() && v@[j].prec()
                        == self.intervals@[j].prec(),
            decreases n - i,
        {
            v.push(self.intervals[i].clone());
            i += 1;
        }
        IntervalSet { intervals: v }
    }
}

impl<BOUND: Float> IntervalSet<BOUND> {
    /// Bound models of the member intervals, in order.
    pub open spec fn models(&self) -> Seq<(Xv, Xv)> {
        models_of(self.intervals@)
    }

    /// Constructs an empty interval set.
    pub fn empty() -> (r: Self)
        ensures
            r.models() =~= Seq::<(Xv, Xv)>::empty(),
            r.intervals@.len() == 0,
    {
        IntervalSet { intervals: Vec::new() }
    }

    /// Constructs an interval set of one interval from the given interval.
    ///
    /// The result is empty if the interval is NaN.
    pub fn from_interval(i: Interval<BOUND>) -> (r: Self)
        ensures
            x_is_nan(i.lo_m()) ==> r.models() =~= Seq::<(Xv, Xv)>::empty(),
            !x_is_nan(i.lo_m()) ==> r.models() =~= seq![(i.lo_m(), i.hi_m())],
            is_normalized(r.models()),
            all_prec(r.intervals@, i.prec()),
    {
        if i.is_nan() {
            Self::empty()
        } else {
            let mut v: Vec<Interval<BOUND>> = Vec::new();
            v.push(i);
            IntervalSet { intervals: v }
        }
    }

    /// Constructs an interval set of one interval from the given bounds.
    ///
    /// The result may be empty if both bounds are NaN.
    pub fn new(lo: BOUND, hi: BOUND) -> (r: Self)
        requires
            lo.p() == hi.p(),
            lo.p() >= 1,
            x_is_nan(lo.m()) <==> x_is_nan(hi.m()),
            !x_is_nan(lo.m()) ==> x_le(lo.m(), hi.m()),
            !(lo.m() is PInf && hi.m() is PInf),
            !(lo.m() is NInf && hi.m() is NInf),
        ensures
            x_is_nan(lo.m()) ==> r.models() =~= Seq::<(Xv, Xv)>::empty(),
            !x_is_nan(lo.m()) ==> r.models() =~= seq![(lo.m(), hi.m())],
            is_normalized(r.models()),
            all_prec(r.intervals@, lo.p()),
    {
        Self::from_interval(Interval::new(lo, hi))
    }

    /// Constructs an interval set of one singleton interval.
    ///
    /// The result may be empty if the value is NaN.
    pub fn singleton(val: BOUND) -> (r: Self)
        requires
            val.p() >= 1,
            !(val.m() is PInf),
            !(val.m() is NInf),
        ensures
            x_is_nan(val.m()) ==> r.models() =~= Seq::<(Xv, Xv)>::empty(),
            !x_is_nan(val.m()) ==> r.models() =~= seq![(val.m(), val.m())],
            all_prec(r.intervals@, val.p()),
    {
        Self::from_interval(Interval::singleton(val))
    }

    /// Constructs an interval set of one interval containing only zero.
    pub fn zero(precision: usize) -> (r: Self)
        requires
            precision >= 1,
        ensures
            r.models() =~= seq![(x_zero(), x_zero())],
            all_prec(r.intervals@, precision),
    {
        Self::from_interval(Interval::zero(precision))
    }

    /// Constructs an interval set of one interval containing only one.
    pub fn one(precision: usize) -> (r: Self)
        requires
            precision >= 1,
        ensures
            r.models() =~= seq![(x_one(), x_one())],
            all_prec(r.intervals@, precision),
    {
        Self::from_interval(Interval::one(precision))
    }

    /// Constructs an interval set of one interval containing all numbers.
    pub fn whole(precision: usize) -> (r: Self)
        requires
            precision >= 1,
        ensures
            r.models() =~= seq![(Xv::NInf, Xv::PInf)],
            all_prec(r.intervals@, precision),
    {
        Self::from_interval(Interval::whole(precision))
    }

    /// Constructs an interval set from the given intervals, which must all
    /// share one precision.
    ///
    /// This is the normalization step: empty (NaN) members are dropped, the
    /// rest are sorted ascending by lower bound, and members that overlap
    /// or touch are merged, sweeping left to right. A member list that is
    /// already normalized is kept exactly as it is, so normalization is
    /// idempotent.
    pub fn from_intervals(intervals: Vec<Interval<BOUND>>) -> (r: Self)
        requires
            uniform_prec(intervals@),
        ensures
            is_normalized(r.models()),
            forall|p: usize| all_prec(intervals@, p) ==> all_prec(r.intervals@, p),
            is_normalized(models_of(intervals@)) ==> r.intervals@ == intervals@,
            forall|x: Xv|
                #[trigger] set_contains(r.models(), x) <==> set_contains(
                    models_of(intervals@),
                    x,
                ),
    {
        let ghost precision: usize = if intervals@.len() > 0 {
            intervals@[0].prec()
        } else {
            0
        };
        proof {
            assert(all_prec(intervals@, precision) || intervals@.len() == 0);
        }
        if Self::check_normalized(&intervals) {
            return IntervalSet { intervals };
        }
        // drop the empty members
        let mut kept: Vec<Interval<BOUND>> = Vec::new();
        let n = intervals.len();
        let mut i: usize = 0;
        while i < n
            invariant
                n == intervals@.len(),
                0 <= i <= n,
                all_prec(intervals@, precision),
                all_prec(kept@, precision),
                wf_elems(kept@),
                forall|x: Xv|
                    #[trigger] set_contains(models_of(kept@), x) <==> set_contains(
                        models_of(intervals@.subrange(0, i as int)),
                        x,
                    ),
            decreases n - i,
        {
            let ghost kept_before = kept@;
            let ghost prefix = intervals@.subrange(0, i as int);
            let iv = intervals[i].clone();
            proof {
                use_type_invariant(&iv);
                if !x_is_nan(iv.lo_m()) {
                    lemma_wf_ends(iv.lo_m(), iv.hi_m());
                }
                assert(intervals@.subrange(0, i + 1 as int) =~= prefix.push(intervals@[i as int]));
            }
            if !iv.is_nan() {
                kept.push(iv);
            }
            proof {
                assert forall|x: Xv|
                    #[trigger] set_contains(models_of(kept@), x) <==> set_contains(
                        models_of(intervals@.subrange(0, i + 1 as int)),
                        x,
                    ) by {
                    lemma_set_contains_push(prefix, intervals@[i as int], x);
                    if !x_is_nan(iv.lo_m()) {
                        lemma_set_contains_push(kept_before, iv, x);
                    }
                }
            }
            i += 1;
        }
        proof {
            assert(intervals@.subrange(0, n as int) =~= intervals@);
        }
        if kept.len() == 0 {
            let e = Self::empty();
            proof {
                assert forall|x: Xv|
                    #[trigger] set_contains(e.models(), x) <==> set_contains(
                        models_of(intervals@),
                        x,
                    ) by {
                    assert(e.models().len() == 0);
                    assert(models_of(kept@).len() == 0);
                    assert(!set_contains(e.models(), x));
                    assert(!set_contains(models_of(kept@), x));
                    assert(set_contains(models_of(kept@), x) <==> set_contains(
                        models_of(intervals@),
                        x,
                    ));
                }
            }
            return e;
        }
        let ghost keptseq = kept@;
        // insertion sort, ascending by lower bound
        let mut sorted: Vec<Interval<BOUND>> = Vec::new();
        let kn = kept.len();
        let mut i2: usize = 0;
        while i2 < kn
            invariant
                kn == kept@.len(),
                kept@ == keptseq,
                0 <= i2 <= kn,
                sorted@.len() == i2,
                all_prec(kept@, precision),
                all_prec(sorted@, precision),
                wf_elems(kept@),
                wf_elems(sorted@),
                sorted_by_lo(sorted@),
                forall|x: Xv|
                    #[trigger] set_contains(models_of(sorted@), x) <==> set_contains(
                        models_of(kept@.subrange(0, i2 as int)),
                        x,
                    ),
            decreases kn - i2,
        {
            let iv = kept[i2].clone();
            let m = sorted.len();
            let mut pos: usize = 0;
            while pos < m && !iv.lo().lt(sorted[pos].lo())
                invariant
                    m == sorted@.len(),
                    0 <= pos <= m,
                    forall|j: int|
                        0 <= j < pos ==> !x_lt(iv.lo_m(), (#[trigger] sorted@[j]).lo_m()),
                decreases m - pos,
            {
                pos += 1;
            }
            proof {
                assert forall|j: int| 0 <= j < pos implies x_le(
                    (#[trigger] sorted@[j]).lo_m(),
                    iv.lo_m(),
                ) by {
                    lemma_x_total(iv.lo_m(), sorted@[j].lo_m());
                }
            }
            let ghost before = sorted@;
            sorted.insert(pos, iv);
            proof {
                before.insert_ensures(pos as int, iv);
                assert(kept@.subrange(0, i2 + 1 as int) =~= kept@.subrange(0, i2 as int).push(
                    kept@[i2 as int],
                ));
                assert forall|x: Xv|
                    #[trigger] set_contains(models_of(sorted@), x) <==> set_contains(
                        models_of(kept@.subrange(0, i2 + 1 as int)),
                        x,
                    ) by {
                    assert(sorted@ == before.insert(pos as int, iv));
                    lemma_set_contains_insert(before, pos as int, iv, x);
                    lemma_set_contains_push(kept@.subrange(0, i2 as int), kept@[i2 as int], x);
                }
                assert forall|a: int, b: int|
                    0 <= a < b < sorted@.len() implies x_le(
                    (#[trigger] sorted@[a]).lo_m(),
                    (#[trigger] sorted@[b]).lo_m(),
                ) by {
                    let p = pos as int;
                    if a < p && b == p {
                        assert(sorted@[a] == before[a]);
                    } else if a == p && b > p {
                        assert(sorted@[b] == before[b - 1]);
                        assert(x_lt(iv.lo_m(), before[p].lo_m()));
                        if b - 1 > p {
                            assert(x_le(before[p].lo_m(), before[b - 1].lo_m()));
                            lemma_x_trans(iv.lo_m(), before[p].lo_m(), before[b - 1].lo_m());
                        }
                    } else if a < p && b > p {
                        assert(sorted@[a] == before[a] && sorted@[b] == before[b - 1]);
                        if a == b - 1 {
                            lemma_x_refl(before[a].lo_m());
                        }
                    } else if b < p {
                        assert(sorted@[a] == before[a] && sorted@[b] == before[b]);
                    } else if a > p {
                        assert(sorted@[a] == before[a - 1] && sorted@[b] == before[b - 1]);
                    }
                }
                assert forall|j: int| 0 <= j < sorted@.len() implies wf_elem(
                    #[trigger] sorted@[j],
                ) by {
                    let p = pos as int;
                    if j < p {
                        assert(sorted@[j] == before[j]);
                    } else if j > p {
                        assert(sorted@[j] == before[j - 1]);
                    }
                }
                assert forall|j: int|
                    0 <= j < sorted@.len() implies (#[trigger] sorted@[j]).prec()
                    == precision by {
                    let p = pos as int;
                    if j < p {
                        assert(sorted@[j] == before[j]);
                    } else if j > p {
                        assert(sorted@[j] == before[j - 1]);
                    }
                }
            }
            i2 += 1;
        }
        // sweep and merge
        let first = sorted[0].clone();
        proof {
            use_type_invariant(&first);
        }
        let (mut lo, mut hi) = first.into_pair();
        let mut out: Vec<Interval<BOUND>> = Vec::new();
        let sn = sorted.len();
        proof {
            assert forall|x: Xv|
                (#[trigger] set_contains(models_of(out@), x) || in_pair(x, lo.m(), hi.m()))
                    <==> set_contains(models_of(sorted@.subrange(0, 1int)), x) by {
                assert(models_of(out@).len() == 0);
                let pre = sorted@.subrange(0, 1int);
                assert(pre[0] == sorted@[0]);
                assert(models_of(pre)[0] == (sorted@[0].lo_m(), sorted@[0].hi_m()));
                if in_pair(x, lo.m(), hi.m()) {
                    assert(in_pair(x, (#[trigger] models_of(pre)[0]).0, models_of(pre)[0].1));
                }
                if set_contains(models_of(pre), x) {
                    let i = choose|i: int|
                        0 <= i < pre.len() && in_pair(
                            x,
                            (#[trigger] models_of(pre)[i]).0,
                            models_of(pre)[i].1,
                        );
                    assert(i == 0);
                    assert(in_pair(x, lo.m(), hi.m()));
                }
            }
        }
        let mut i3: usize = 1;
        while i3 < sn
            invariant
                sn == sorted@.len(),
                1 <= i3 <= sn,
                all_prec(sorted@, precision),
                all_prec(out@, precision),
                wf_elems(sorted@),
                sorted_by_lo(sorted@),
                lo.p() == precision,
                hi.p() == precision,
                !x_is_nan(lo.m()) && !x_is_nan(hi.m()),
                x_le(lo.m(), hi.m()),
                !(lo.m() is PInf),
                !(hi.m() is NInf),
                forall|j: int|
                    i3 <= j < sorted@.len() ==> x_le(lo.m(), (#[trigger] sorted@[j]).lo_m()),
                is_normalized(models_of(out@)),
                out@.len() > 0 ==> x_lt(models_of(out@)[out@.len() - 1].1, lo.m()),
                forall|x: Xv|
                    (#[trigger] set_contains(models_of(out@), x) || in_pair(x, lo.m(), hi.m()))
                        <==> set_contains(models_of(sorted@.subrange(0, i3 as int)), x),
            decreases sn - i3,
        {
            let nxt = sorted[i3].clone();
            proof {
                use_type_invariant(&nxt);
            }
            let ghost old_lo = lo.m();
            let ghost old_hi = hi.m();
            let ghost prefix = sorted@.subrange(0, i3 as int);
            proof {
                assert(sorted@.subrange(0, i3 + 1 as int) =~= prefix.push(sorted@[i3 as int]));
            }
            let (nlo, nhi) = nxt.into_pair();
            if hi.lt(&nlo) {
                let ghost out_before = out@;
                let done = Interval::new(lo.dup(), hi.dup());
                out.push(done);
                proof {
                    lemma_push_normalized(out_before, done);
                    assert(out@ == out_before.push(done));
                    assert(models_of(out@)[out@.len() - 1].1 == done.hi_m());
                }
                lo = nlo;
                hi = nhi;
                proof {
                    assert forall|x: Xv|
                        (#[trigger] set_contains(models_of(out@), x) || in_pair(
                            x,
                            lo.m(),
                            hi.m(),
                        )) <==> set_contains(
                        models_of(sorted@.subrange(0, i3 + 1 as int)),
                        x,
                    ) by {
                        lemma_set_contains_push(out_before, done, x);
                        lemma_set_contains_push(prefix, sorted@[i3 as int], x);
                        assert(sorted@.subrange(0, i3 + 1 as int) == prefix.push(
                            sorted@[i3 as int],
                        ));
                        assert(lo.m() == sorted@[i3 as int].lo_m() && hi.m()
                            == sorted@[i3 as int].hi_m());
                        assert(done.lo_m() == old_lo && done.hi_m() == old_hi);
                        assert((set_contains(models_of(out_before), x) || in_pair(
                            x,
                            old_lo,
                            old_hi,
                        )) <==> set_contains(models_of(prefix), x));
                    }
                }
            } else {
                proof {
                    lemma_x_total(hi.m(), nlo.m());
                    lemma_x_trans(lo.m(), nlo.m(), nhi.m());
                    lemma_x_total(hi.m(), nhi.m());
                }
                if hi.lt(&nhi) {
                    hi = nhi;
                }
                proof {
                    assert forall|x: Xv|
                        (#[trigger] set_contains(models_of(out@), x) || in_pair(
                            x,
                            lo.m(),
                            hi.m(),
                        )) <==> set_contains(
                        models_of(sorted@.subrange(0, i3 + 1 as int)),
                        x,
                    ) by {
                        assert(x_le(old_lo, (sorted@[i3 as int]).lo_m()));
                        assert(nxt.lo_m() == sorted@[i3 as int].lo_m() && nxt.hi_m()
                            == sorted@[i3 as int].hi_m());
                        lemma_pair_merge(old_lo, old_hi, nxt.lo_m(), nxt.hi_m(), hi.m(), x);
                        lemma_set_contains_push(prefix, sorted@[i3 as int], x);
                        assert(sorted@.subrange(0, i3 + 1 as int) == prefix.push(
                            sorted@[i3 as int],
                        ));
                        assert((set_contains(models_of(out@), x) || in_pair(x, old_lo, old_hi))
                            <==> set_contains(models_of(prefix), x));
                    }
                }
            }
            i3 += 1;
        }
        let ghost out_before = out@;
        let ghost lo_m_final = lo.m();
        let ghost hi_m_final = hi.m();
        let last = Interval::new(lo, hi);
        out.push(last);
        proof {
            lemma_push_normalized(out_before, last);
            assert(sorted@.subrange(0, sn as int) =~= sorted@);
            assert(kept@.subrange(0, kn as int) =~= kept@);
            assert forall|x: Xv|
                #[trigger] set_contains(models_of(out@), x) <==> set_contains(
                    models_of(intervals@),
                    x,
                ) by {
                lemma_set_contains_push(out_before, last, x);
                assert(set_contains(models_of(out@), x) <==> (set_contains(
                    models_of(out_before),
                    x,
                ) || in_pair(x, lo_m_final, hi_m_final)));
                assert((set_contains(models_of(out_before), x) || in_pair(
                    x,
                    lo_m_final,
                    hi_m_final,
                )) <==> set_contains(models_of(sorted@), x));
                assert(set_contains(models_of(sorted@), x) <==> set_contains(
                    models_of(kept@),
                    x,
                ));
                assert(set_contains(models_of(kept@), x) <==> set_contains(
                    models_of(intervals@),
                    x,
                ));
            }
        }
        IntervalSet { intervals: out }
    }

    /// Whether the member list is already in the canonical form: no empty
    /// members, strictly ascending, with gaps between members.
    fn check_normalized(intervals: &Vec<Interval<BOUND>>) -> (r: bool)
        ensures
            r == is_normalized(models_of(intervals@)),
    {
        let ghost ms = models_of(intervals@);
        let n = intervals.len();
        let mut i: usize = 0;
        let mut ok = true;
        while i < n
            invariant
                n == intervals@.len(),
                ms == models_of(intervals@),
                0 <= i <= n,
                ok == ((forall|j: int| 0 <= j < i ==> !x_is_nan((#[trigger] ms[j]).0)) && (
                forall|j: int| 0 <= j < i && j + 1 < n ==> x_lt((#[trigger] ms[j]).1, ms[j + 1].0))),
            decreases n - i,
        {
            proof {
                assert((#[trigger] ms[i as int]) == (intervals@[i as int].lo_m(),
                intervals@[i as int].hi_m()));
                if i + 1 < n {
                    assert(ms[i + 1 as int] == (intervals@[i + 1 as int].lo_m(),
                    intervals@[i + 1 as int].hi_m()));
                }
            }
            let nan_bad = intervals[i].is_nan();
            let gap_bad = if i + 1 < n {
                !intervals[i].hi().lt(intervals[i + 1].lo())
            } else {
                false
            };
            if nan_bad || gap_bad {
                ok = false;
            }
            i += 1;
        }
        ok
    }
}

impl<BOUND: Float> IntervalSet<BOUND> {
    /// Constructs an interval set by parsing a string.
    ///
    /// Accepts `INTERVAL_SET` according to the rule below.
    ///
    /// ```text
    /// INTERVAL_SET = INTERVAL | '{' ( INTERVAL ( ';' INTERVAL )* )? '}'
    /// ```
    /// Constructs an interval set by parsing a string.
    ///
    /// Accepts `INTERVAL_SET` according to the rule below.
    ///
    /// ```text
    /// INTERVAL_SET = INTERVAL | '{' ( INTERVAL ( ';' INTERVAL )* )? '}'
    /// ```
    ///
    /// The contract pins the whole outcome to `ivs_parse`: grammatical
    /// input is owed the set holding exactly the points of its members, and
    /// each of the three error kinds comes exactly on the inputs
    /// `ivs_parse` names.
    pub fn from_str_with_prec(s: &str, precision: usize) -> (r: Result<
        Self,
        ParseIntervalSetError,
    >)
        requires
            precision >= 1,
        ensures
            r matches Ok(set) ==> is_normalized(set.models()) && all_prec(
                set.intervals@,
                precision,
            ) && ivs_parse::<BOUND>(s@, precision) is Ok && (forall|q: Xv|
                #[trigger] set_contains(set.models(), q) <==> set_contains(
                    ivs_parse::<BOUND>(s@, precision)->Ok_0,
                    q,
                )),
            r matches Err(e) ==> ivs_parse::<BOUND>(s@, precision) == Result::<
                Seq<(Xv, Xv)>,
                ParseIntervalSetError,
            >::Err(e),
    {
        match Interval::<BOUND>::from_str_with_prec(s, precision) {
            Ok(iv) => {
                let ghost pr = (iv.lo_m(), iv.hi_m());
                let set = Self::from_interval(iv);
                proof {
                    assert(ivs_parse::<BOUND>(s@, precision)->Ok_0 =~= seq![pr]);
                    assert forall|q: Xv|
                        #[trigger] set_contains(set.models(), q) <==> set_contains(
                            seq![pr],
                            q,
                        ) by {
                        if set_contains(seq![pr], q) {
                            assert(in_pair(q, pr.0, pr.1));
                        }
                        if !x_is_nan(pr.0) {
                            assert(set.models() =~= seq![pr]);
                        } else {
                            assert(set.models().len() == 0);
                        }
                    }
                }
                return Ok(set);
            },
            Err(_) => {},
        }
        let n = s.unicode_len();
        if n == 0 || s.get_char(0) != '{' {
            return Err(ParseIntervalSetError::MissingOpeningBraces);
        }
        let mut i: usize = 0;
        while i < n && s.get_char(i) == '{'
            invariant
                0 <= i <= n,
                n == s@.len(),
                skip_obrace(s@, 0) == skip_obrace(s@, i as int),
            decreases n - i,
        {
            i += 1;
        }
        while i < n && Interval::<BOUND>::is_ws(s.get_char(i))
            invariant
                0 <= i <= n,
                n == s@.len(),
                skip_ws(s@, skip_obrace(s@, 0), n as int) == skip_ws(s@, i as int, n as int),
            decreases n - i,
        {
            i += 1;
        }
        proof {
            assert(i as int == skip_ws(s@, skip_obrace(s@, 0), n as int));
        }
        if i == n || s.get_char(n - 1) != '}' {
            return Err(ParseIntervalSetError::MissingClosingBraces);
        }
        let mut j: usize = n;
        while j > i && s.get_char(j - 1) == '}'
            invariant
                i <= j <= n,
                i < n,
                n == s@.len(),
                rskip_cbrace(s@, i as int, n as int) == rskip_cbrace(s@, i as int, j as int),
            decreases j,
        {
            j -= 1;
        }
        let ghost jc = j as int;
        while j > i && Interval::<BOUND>::is_ws(s.get_char(j - 1))
            invariant
                i <= j <= n,
                n == s@.len(),
                rskip_ws(s@, i as int, jc) == rskip_ws(s@, i as int, j as int),
            decreases j,
        {
            j -= 1;
        }
        proof {
            assert(j as int == rskip_ws(s@, i as int, rskip_cbrace(s@, i as int, n as int)));
        }
        if i == j {
            let e = Self::empty();
            proof {
                assert(ivs_parse::<BOUND>(s@, precision) == Result::<
                    Seq<(Xv, Xv)>,
                    ParseIntervalSetError,
                >::Ok(Seq::empty()));
                assert forall|q: Xv|
                    #[trigger] set_contains(e.models(), q) <==> set_contains(
                        ivs_parse::<BOUND>(s@, precision)->Ok_0,
                        q,
                    ) by {
                    assert(e.models().len() == 0);
                    assert(ivs_parse::<BOUND>(s@, precision)->Ok_0.len() == 0);
                }
            }
            return Ok(e);
        }
        // parse the members between the semicolons
        let ghost i0 = i as int;
        let mut parts: Vec<Interval<BOUND>> = Vec::new();
        let mut start: usize = i;
        let mut k: usize = i;
        loop
            invariant_except_break
                first_semi(s@, start as int, j as int) == first_semi(s@, k as int, j as int),
                match set_members::<BOUND>(s@, start as int, j as int, precision) {
                    Option::Some(rest) => set_members::<BOUND>(s@, i0, j as int, precision)
                        == Option::Some(models_of(parts@) + rest),
                    Option::None => set_members::<BOUND>(s@, i0, j as int, precision) is None,
                },
            invariant
                precision >= 1,
                i0 == i as int,
                i <= start <= k <= j <= n,
                i < j,
                n == s@.len(),
                all_prec(parts@, precision),
                ivs_parse::<BOUND>(s@, precision) == (match set_members::<BOUND>(
                    s@,
                    i0,
                    j as int,
                    precision,
                ) {
                    Option::Some(ms) => Result::<Seq<(Xv, Xv)>, ParseIntervalSetError>::Ok(ms),
                    Option::None => Result::<Seq<(Xv, Xv)>, ParseIntervalSetError>::Err(
                        ParseIntervalSetError::IntervalsParseError,
                    ),
                }),
            ensures
                set_members::<BOUND>(s@, i0, j as int, precision) == Option::Some(
                    models_of(parts@),
                ),
                all_prec(parts@, precision),
            decreases j - k + 1,
        {
            if k == j || s.get_char(k) == ';' {
                proof {
                    lemma_first_semi_bounds(s@, k as int, j as int);
                    assert(first_semi(s@, start as int, j as int) == k as int);
                }
                let ghost startg = start as int;
                let ghost kg = k as int;
                let mut a = start;
                let mut b = k;
                while a < b && Interval::<BOUND>::is_ws(s.get_char(a))
                    invariant
                        startg <= a as int <= b as int,
                        b as int == kg,
                        kg <= n,
                        n == s@.len(),
                        skip_ws(s@, startg, kg) == skip_ws(s@, a as int, kg),
                    decreases b - a,
                {
                    a += 1;
                }
                proof {
                    assert(a as int == skip_ws(s@, startg, kg));
                }
                while b > a && Interval::<BOUND>::is_ws(s.get_char(b - 1))
                    invariant
                        a as int <= b as int <= kg,
                        kg <= n,
                        n == s@.len(),
                        rskip_ws(s@, a as int, kg) == rskip_ws(s@, a as int, b as int),
                    decreases b,
                {
                    b -= 1;
                }
                proof {
                    assert(b as int == rskip_ws(s@, a as int, kg));
                }
                let part = s.substring_char(a, b);
                match Interval::<BOUND>::from_str_with_prec(part, precision) {
                    Ok(iv) => {
                        let ghost parts_before = parts@;
                        parts.push(iv);
                        proof {
                            assert(iv_parse::<BOUND>(s@.subrange(a as int, b as int), precision)
                                == Result::<(Xv, Xv), ParseIntervalError>::Ok(
                                (iv.lo_m(), iv.hi_m()),
                            ));
                            if k < j {
                                assert(models_of(parts@) + set_members::<BOUND>(
                                    s@,
                                    k + 1 as int,
                                    j as int,
                                    precision,
                                )->Some_0 =~= models_of(parts_before) + (seq![
                                    (iv.lo_m(), iv.hi_m()),
                                ] + set_members::<BOUND>(
                                    s@,
                                    k + 1 as int,
                                    j as int,
                                    precision,
                                )->Some_0));
                            } else {
                                assert(models_of(parts@) =~= models_of(parts_before) + seq![
                                    (iv.lo_m(), iv.hi_m()),
                                ]);
                            }
                        }
                        if k == j {
                            break ;
                        }
                        start = k + 1;
                    },
                    Err(_) => {
                        proof {
                            assert(iv_parse::<BOUND>(s@.subrange(a as int, b as int), precision)
                                is Err);
                            assert(set_members::<BOUND>(
                                s@,
                                startg,
                                j as int,
                                precision,
                            ) is None);
                            assert(set_members::<BOUND>(s@, i0, j as int, precision) is None);
                        }
                        return Err(ParseIntervalSetError::IntervalsParseError);
                    },
                }
            } else {
                proof {
                    lemma_first_semi_step(s@, start as int, k as int, j as int);
                }
            }
            k += 1;
        }
        proof {
            assert(uniform_prec(parts@));
        }
        let r = Self::from_intervals(parts);
        proof {
            assert(ivs_parse::<BOUND>(s@, precision) == Result::<
                Seq<(Xv, Xv)>,
                ParseIntervalSetError,
            >::Ok(models_of(parts@)));
        }
        Ok(r)
    }

    /// Whether `self` contains only one interval that is a singleton.
    pub fn is_singleton(&self) -> (r: bool)
        ensures
            r == (self.models().len() == 1 && x_eq(self.models()[0].0, self.models()[0].1)),
    {
        self.intervals.len() == 1 && self.intervals[0].is_singleton()
    }

    /// Whether `self` contains only one interval that contains only zero.
    pub fn is_zero(&self) -> (r: bool)
        ensures
            r == (self.models().len() == 1 && x_is_zero(self.models()[0].0) && x_is_zero(
                self.models()[0].1,
            )),
    {
        self.intervals.len() == 1 && self.intervals[0].is_zero()
    }

    /// Whether `self` is the empty set.
    pub fn is_empty(&self) -> (r: bool)
        ensures
            r == (self.models().len() == 0),
    {
        self.intervals.len() == 0
    }

    /// Whether some member of `self` contains zero.
    pub fn has_zero(&self) -> (r: bool)
        ensures
            r == (exists|i: int|
                0 <= i < self.models().len() && x_sign((#[trigger] self.models()[i]).0) <= 0
                    && x_sign(self.models()[i].1) >= 0),
    {
        let n = self.intervals.len();
        let mut i: usize = 0;
        while i < n
            invariant
                n == self.intervals@.len(),
                0 <= i <= n,
                forall|j: int|
                    0 <= j < i ==> !(x_sign((#[trigger] self.models()[j]).0) <= 0 && x_sign(
                        self.models()[j].1,
                    ) >= 0),
            decreases n - i,
        {
            if self.intervals[i].has_zero() {
                proof {
                    assert(self.models()[i as int].0 == self.intervals@[i as int].lo_m());
                }
                return true;
            }
            proof {
                assert(self.models()[i as int].0 == self.intervals@[i as int].lo_m());
            }
            i += 1;
        }
        false
    }

    /// The member intervals as a fresh vector.
    pub fn intervals(&self) -> (r: Vec<Interval<BOUND>>)
        ensures
            models_of(r@) =~= self.models(),
            r@.len() == self.intervals@.len(),
            forall|i: int|
                0 <= i < r@.len() ==> (#[trigger] r@[i]).prec() == self.intervals@[i].prec(),
    {
        let c = self.clone();
        c.intervals
    }

    /// The member intervals as pairs of bounds, lower bound first.
    pub fn into_pairs(self) -> (r: Vec<(BOUND, BOUND)>)
        ensures
            r@.len() == self.intervals@.len(),
            forall|i: int|
                0 <= i < r@.len() ==> (#[trigger] r@[i]).0.m() == self.models()[i].0
                    && r@[i].1.m() == self.models()[i].1,
    {
        let ghost orig = self.intervals@;
        let mut v = self.intervals;
        let mut r: Vec<(BOUND, BOUND)> = Vec::new();
        let n = v.len();
        let mut i: usize = 0;
        while i < n
            invariant
                n == orig.len(),
                v@ == orig.subrange(i as int, n as int),
                0 <= i <= n,
                r@.len() == i,
                forall|j: int|
                    0 <= j < i ==> (#[trigger] r@[j]).0.m() == orig[j].lo_m() && r@[j].1.m()
                        == orig[j].hi_m(),
            decreases n - i,
        {
            let iv = v.remove(0);
            let (lo, hi) = iv.into_pair();
            r.push((lo, hi));
            i += 1;
            proof {
                assert(v@ =~= orig.subrange(i as int, n as int));
            }
        }
        r
    }

    /// Exact negation: every member is negated and the order reversed, which
    /// keeps the members ascending without another normalization pass.
    pub fn neg(self) -> (r: Self)
        ensures
            r.models().len() == self.models().len(),
            forall|i: int|
                0 <= i < r.models().len() ==> (#[trigger] r.models()[i]) == (
                    x_neg(self.models()[self.models().len() - 1 - i].1),
                    x_neg(self.models()[self.models().len() - 1 - i].0),
                ),
            forall|p: usize| all_prec(self.intervals@, p) ==> all_prec(r.intervals@, p),
    {
        let ghost orig = self.intervals@;
        let n = self.intervals.len();
        let mut r: Vec<Interval<BOUND>> = Vec::new();
        let mut i: usize = 0;
        while i < n
            invariant
                n == orig.len(),
                self.intervals@ == orig,
                0 <= i <= n,
                r@.len() == i,
                forall|j: int|
                    0 <= j < i ==> (#[trigger] r@[j]).lo_m() == x_neg(orig[n - 1 - j].hi_m())
                        && r@[j].hi_m() == x_neg(orig[n - 1 - j].lo_m()) && r@[j].prec()
                        == orig[n - 1 - j].prec(),
            decreases n - i,
        {
            let iv = self.intervals[n - 1 - i].clone();
            r.push(iv.neg());
            i += 1;
        }
        IntervalSet { intervals: r }
    }

    /// Performs a binary operation by performing it on all pairs of
    /// intervals of `self` and `rhs`, and normalizing everything the pairs
    /// contribute. An empty operand therefore gives the empty set.
    pub fn binary_op<OP: Fn(Interval<BOUND>, Interval<BOUND>) -> Vec<Interval<BOUND>>>(
        self,
        rhs: Self,
        op: OP,
    ) -> (r: Self)
        requires
            uniform_prec(self.intervals@ + rhs.intervals@),
            forall|x: Interval<BOUND>, y: Interval<BOUND>|
                x.prec() == y.prec() ==> #[trigger] call_requires(op, (x, y)),
            forall|x: Interval<BOUND>, y: Interval<BOUND>, out: Vec<Interval<BOUND>>|
                #[trigger] call_ensures(op, (x, y), out) ==> all_prec(out@, x.prec()),
        ensures
            is_normalized(r.models()),
            (self.models().len() == 0 || rhs.models().len() == 0) ==> r.models() =~= Seq::<
                (Xv, Xv),
            >::empty(),
            forall|p: usize|
                all_prec(self.intervals@ + rhs.intervals@, p) ==> all_prec(r.intervals@, p),
            forall|i: int, j: int, q: Xv|
                0 <= i < self.intervals@.len() && 0 <= j < rhs.intervals@.len()
                    && #[trigger] op_yields(
                    op,
                    self.intervals@[i].lo_m(),
                    self.intervals@[i].hi_m(),
                    self.intervals@[i].prec(),
                    rhs.intervals@[j].lo_m(),
                    rhs.intervals@[j].hi_m(),
                    rhs.intervals@[j].prec(),
                    q,
                ) ==> set_contains(r.models(), q),
    {
        let ghost both = self.intervals@ + rhs.intervals@;
        let ghost precision: usize = if both.len() > 0 {
            both[0].prec()
        } else {
            0
        };
        let mut collected: Vec<Interval<BOUND>> = Vec::new();
        let n1 = self.intervals.len();
        let n2 = rhs.intervals.len();
        let mut i: usize = 0;
        while i < n1
            invariant
                n1 == self.intervals@.len(),
                n2 == rhs.intervals@.len(),
                both == self.intervals@ + rhs.intervals@,
                uniform_prec(both),
                precision == if both.len() > 0 {
                    both[0].prec()
                } else {
                    0
                },
                forall|x: Interval<BOUND>, y: Interval<BOUND>|
                    x.prec() == y.prec() ==> #[trigger] call_requires(op, (x, y)),
                forall|x: Interval<BOUND>, y: Interval<BOUND>, out: Vec<Interval<BOUND>>|
                    #[trigger] call_ensures(op, (x, y), out) ==> all_prec(out@, x.prec()),
                0 <= i <= n1,
                all_prec(collected@, precision),
                n1 > 0 || collected@.len() == 0,
                n2 > 0 || collected@.len() == 0,
                forall|i2: int, j2: int, q: Xv|
                    0 <= i2 < i && 0 <= j2 < n2 && #[trigger] op_yields(
                        op,
                        self.intervals@[i2].lo_m(),
                        self.intervals@[i2].hi_m(),
                        self.intervals@[i2].prec(),
                        rhs.intervals@[j2].lo_m(),
                        rhs.intervals@[j2].hi_m(),
                        rhs.intervals@[j2].prec(),
                        q,
                    ) ==> set_contains(models_of(collected@), q),
            decreases n1 - i,
        {
            let mut j: usize = 0;
            while j < n2
                invariant
                    n1 == self.intervals@.len(),
                    n2 == rhs.intervals@.len(),
                    both == self.intervals@ + rhs.intervals@,
                    uniform_prec(both),
                    precision == if both.len() > 0 {
                        both[0].prec()
                    } else {
                        0
                    },
                    forall|x: Interval<BOUND>, y: Interval<BOUND>|
                        x.prec() == y.prec() ==> #[trigger] call_requires(op, (x, y)),
                    forall|x: Interval<BOUND>, y: Interval<BOUND>, out: Vec<Interval<BOUND>>|
                        #[trigger] call_ensures(op, (x, y), out) ==> all_prec(out@, x.prec()),
                    0 <= i < n1,
                    0 <= j <= n2,
                    all_prec(collected@, precision),
                    n2 > 0 || collected@.len() == 0,
                    forall|i2: int, j2: int, q: Xv|
                        0 <= i2 < n1 && 0 <= j2 < n2 && (i2 < i || (i2 == i && j2 < j))
                            && #[trigger] op_yields(
                            op,
                            self.intervals@[i2].lo_m(),
                            self.intervals@[i2].hi_m(),
                            self.intervals@[i2].prec(),
                            rhs.intervals@[j2].lo_m(),
                            rhs.intervals@[j2].hi_m(),
                            rhs.intervals@[j2].prec(),
                            q,
                        ) ==> set_contains(models_of(collected@), q),
                decreases n2 - j,
            {
                let a = self.intervals[i].clone();
                let b = rhs.intervals[j].clone();
                proof {
                    assert(both[i as int] == self.intervals@[i as int]);
                    assert(both[n1 + j] == rhs.intervals@[j as int]);
                }
                let ghost ga = a;
                let ghost gb = b;
                let mut out = op(a, b);
                let ghost out_snap = out@;
                let m = out.len();
                let mut k: usize = 0;
                while k < m
                    invariant
                        m == out@.len(),
                        out@ == out_snap,
                        all_prec(out@, precision),
                        all_prec(collected@, precision),
                        0 <= k <= m,
                        call_ensures(op, (ga, gb), out),
                        forall|i2: int, j2: int, q: Xv|
                            0 <= i2 < n1 && 0 <= j2 < n2 && (i2 < i || (i2 == i && j2 < j))
                                && #[trigger] op_yields(
                                op,
                                self.intervals@[i2].lo_m(),
                                self.intervals@[i2].hi_m(),
                                self.intervals@[i2].prec(),
                                rhs.intervals@[j2].lo_m(),
                                rhs.intervals@[j2].hi_m(),
                                rhs.intervals@[j2].prec(),
                                q,
                            ) ==> set_contains(models_of(collected@), q),
                        forall|q: Xv|
                            (exists|t: int|
                                0 <= t < k && in_pair(
                                    q,
                                    (#[trigger] models_of(out_snap)[t]).0,
                                    models_of(out_snap)[t].1,
                                )) ==> set_contains(models_of(collected@), q),
                    decreases m - k,
                {
                    let ghost coll_before = collected@;
                    collected.push(out[k].clone());
                    proof {
                        assert forall|q: Xv|
                            set_contains(models_of(coll_before), q) implies #[trigger] set_contains(
                            models_of(collected@),
                            q,
                        ) by {
                            lemma_set_contains_push(
                                coll_before,
                                collected@[collected@.len() - 1],
                                q,
                            );
                        }
                        assert forall|q: Xv|
                            in_pair(
                                q,
                                (#[trigger] models_of(out_snap)[k as int]).0,
                                models_of(out_snap)[k as int].1,
                            ) implies set_contains(models_of(collected@), q) by {
                            lemma_set_contains_push(
                                coll_before,
                                collected@[collected@.len() - 1],
                                q,
                            );
                            assert(collected@[collected@.len() - 1].lo_m() == out_snap[k as int].lo_m());
                        }
                    }
                    k += 1;
                }
                proof {
                    assert forall|i2: int, j2: int, q: Xv|
                        0 <= i2 < n1 && 0 <= j2 < n2 && (i2 < i || (i2 == i && j2 < j + 1))
                            && #[trigger] op_yields(
                            op,
                            self.intervals@[i2].lo_m(),
                            self.intervals@[i2].hi_m(),
                            self.intervals@[i2].prec(),
                            rhs.intervals@[j2].lo_m(),
                            rhs.intervals@[j2].hi_m(),
                            rhs.intervals@[j2].prec(),
                            q,
                        ) implies set_contains(models_of(collected@), q) by {
                        if i2 == i && j2 == j {
                            // this very pair: the recorded call output contains q
                            assert(set_contains(models_of(out_snap), q));
                        }
                    }
                }
                j += 1;
            }
            i += 1;
        }
        proof {
            assert(uniform_prec(collected@));
        }
        let r = Self::from_intervals(collected);
        proof {
            assert forall|i: int, j: int, q: Xv|
                0 <= i < self.intervals@.len() && 0 <= j < rhs.intervals@.len()
                    && #[trigger] op_yields(
                    op,
                    self.intervals@[i].lo_m(),
                    self.intervals@[i].hi_m(),
                    self.intervals@[i].prec(),
                    rhs.intervals@[j].lo_m(),
                    rhs.intervals@[j].hi_m(),
                    rhs.intervals@[j].prec(),
                    q,
                ) implies set_contains(r.models(), q) by {
                assert(set_contains(r.models(), q) <==> set_contains(models_of(collected@), q));
            }
        }
        r
    }

    /// The member-pair operation behind `add`: every pointwise sum of the
    /// two members lands in the output.
    fn op_add(x: Interval<BOUND>, y: Interval<BOUND>) -> (out: Vec<Interval<BOUND>>)
        requires
            x.prec() == y.prec(),
        ensures
            all_prec(out@, x.prec()),
            forall|a: Xv, b: Xv|
                in_pair(a, x.lo_m(), x.hi_m()) && in_pair(b, y.lo_m(), y.hi_m())
                    ==> set_contains(models_of(out@), #[trigger] x_add(a, b)),
    {
        let ghost xl = x.lo_m();
        let ghost xh = x.hi_m();
        let ghost yl = y.lo_m();
        let ghost yh = y.hi_m();
        let mut v: Vec<Interval<BOUND>> = Vec::new();
        v.push(x.add(y));
        proof {
            assert forall|a: Xv, b: Xv|
                in_pair(a, xl, xh) && in_pair(b, yl, yh) implies set_contains(
                models_of(v@),
                #[trigger] x_add(a, b),
            ) by {
                assert(in_pair(x_add(a, b), (#[trigger] models_of(v@)[0]).0, models_of(v@)[0].1));
            }
        }
        v
    }

    /// The member-pair operation behind `sub`: every pointwise difference of
    /// the two members lands in the output.
    fn op_sub(x: Interval<BOUND>, y: Interval<BOUND>) -> (out: Vec<Interval<BOUND>>)
        requires
            x.prec() == y.prec(),
        ensures
            all_prec(out@, x.prec()),
            forall|a: Xv, b: Xv|
                in_pair(a, x.lo_m(), x.hi_m()) && in_pair(b, y.lo_m(), y.hi_m())
                    ==> set_contains(models_of(out@), #[trigger] x_sub(a, b)),
    {
        let ghost xl = x.lo_m();
        let ghost xh = x.hi_m();
        let ghost yl = y.lo_m();
        let ghost yh = y.hi_m();
        let mut v: Vec<Interval<BOUND>> = Vec::new();
        v.push(x.sub(y));
        proof {
            assert forall|a: Xv, b: Xv|
                in_pair(a, xl, xh) && in_pair(b, yl, yh) implies set_contains(
                models_of(v@),
                #[trigger] x_sub(a, b),
            ) by {
                assert(in_pair(x_sub(a, b), (#[trigger] models_of(v@)[0]).0, models_of(v@)[0].1));
            }
        }
        v
    }

    /// The member-pair operation behind `mul`: every pointwise product of
    /// the two members lands in the output.
    fn op_mul(x: Interval<BOUND>, y: Interval<BOUND>) -> (out: Vec<Interval<BOUND>>)
        requires
            x.prec() == y.prec(),
        ensures
            all_prec(out@, x.prec()),
            forall|a: Xv, b: Xv|
                in_pair(a, x.lo_m(), x.hi_m()) && in_pair(b, y.lo_m(), y.hi_m())
                    ==> set_contains(models_of(out@), #[trigger] x_mul(a, b)),
    {
        let ghost xl = x.lo_m();
        let ghost xh = x.hi_m();
        let ghost yl = y.lo_m();
        let ghost yh = y.hi_m();
        let mut v: Vec<Interval<BOUND>> = Vec::new();
        v.push(x.mul(y));
        proof {
            assert forall|a: Xv, b: Xv|
                in_pair(a, xl, xh) && in_pair(b, yl, yh) implies set_contains(
                models_of(v@),
                #[trigger] x_mul(a, b),
            ) by {
                assert(in_pair(x_mul(a, b), (#[trigger] models_of(v@)[0]).0, models_of(v@)[0].1));
            }
        }
        v
    }

    /// The member-pair operation behind `div`: some output member brackets
    /// every pointwise quotient of the two members.
    fn op_div(x: Interval<BOUND>, y: Interval<BOUND>) -> (out: Vec<Interval<BOUND>>)
        requires
            x.prec() == y.prec(),
        ensures
            all_prec(out@, x.prec()),
            forall|a: Xv, b: Xv|
                #[trigger] in_pair(a, x.lo_m(), x.hi_m()) && #[trigger] in_pair(
                    b,
                    y.lo_m(),
                    y.hi_m(),
                ) && x_sign(b) != 0 ==> exists|t: int|
                    0 <= t < out@.len() && quot_in(
                        a,
                        b,
                        (#[trigger] models_of(out@)[t]).0,
                        models_of(out@)[t].1,
                    ),
    {
        x.div_multi(y)
    }

    /// The member-pair operation behind `pow`.
    fn op_pow(x: Interval<BOUND>, y: Interval<BOUND>) -> (out: Vec<Interval<BOUND>>)
        requires
            x.prec() == y.prec(),
        ensures
            all_prec(out@, x.prec()),
    {
        x.pow_multi(y)
    }

    /// Correctly rounded addition, member pair by member pair: every
    /// pointwise sum of members lands in the result.
    pub fn add(self, rhs: Self) -> (r: Self)
        requires
            uniform_prec(self.intervals@ + rhs.intervals@),
        ensures
            is_normalized(r.models()),
            (self.models().len() == 0 || rhs.models().len() == 0) ==> r.models() =~= Seq::<
                (Xv, Xv),
            >::empty(),
            forall|a: Xv, b: Xv|
                #[trigger] set_contains(self.models(), a) && #[trigger] set_contains(
                    rhs.models(),
                    b,
                ) ==> set_contains(r.models(), x_add(a, b)),
    {
        let ghost sm = self.intervals@;
        let ghost rm = rhs.intervals@;
        let r = self.binary_op(rhs, Self::op_add);
        proof {
            assert forall|a: Xv, b: Xv|
                #[trigger] set_contains(models_of(sm), a) && #[trigger] set_contains(
                    models_of(rm),
                    b,
                ) implies set_contains(r.models(), x_add(a, b)) by {
                let i = choose|i: int|
                    0 <= i < sm.len() && in_pair(a, (#[trigger] models_of(sm)[i]).0, models_of(sm)[i].1);
                let j = choose|j: int|
                    0 <= j < rm.len() && in_pair(b, (#[trigger] models_of(rm)[j]).0, models_of(rm)[j].1);
                assert forall|x: Interval<BOUND>, y: Interval<BOUND>, out: Vec<Interval<BOUND>>|
                    x.lo_m() == sm[i].lo_m() && x.hi_m() == sm[i].hi_m() && x.prec()
                        == sm[i].prec() && y.lo_m() == rm[j].lo_m() && y.hi_m() == rm[j].hi_m()
                        && y.prec() == rm[j].prec() && #[trigger] call_ensures(
                        Self::op_add,
                        (x, y),
                        out,
                    ) implies set_contains(models_of(out@), x_add(a, b)) by {
                    assert(in_pair(a, x.lo_m(), x.hi_m()));
                    assert(in_pair(b, y.lo_m(), y.hi_m()));
                }
                assert(op_yields(
                    Self::op_add,
                    sm[i].lo_m(),
                    sm[i].hi_m(),
                    sm[i].prec(),
                    rm[j].lo_m(),
                    rm[j].hi_m(),
                    rm[j].prec(),
                    x_add(a, b),
                ));
            }
        }
        r
    }

    /// Correctly rounded subtraction, member pair by member pair: every
    /// pointwise difference of members lands in the result.
    pub fn sub(self, rhs: Self) -> (r: Self)
        requires
            uniform_prec(self.intervals@ + rhs.intervals@),
        ensures
            is_normalized(r.models()),
            (self.models().len() == 0 || rhs.models().len() == 0) ==> r.models() =~= Seq::<
                (Xv, Xv),
            >::empty(),
            forall|a: Xv, b: Xv|
                #[trigger] set_contains(self.models(), a) && #[trigger] set_contains(
                    rhs.models(),
                    b,
                ) ==> set_contains(r.models(), x_sub(a, b)),
    {
        let ghost sm = self.intervals@;
        let ghost rm = rhs.intervals@;
        let r = self.binary_op(rhs, Self::op_sub);
        proof {
            assert forall|a: Xv, b: Xv|
                #[trigger] set_contains(models_of(sm), a) && #[trigger] set_contains(
                    models_of(rm),
                    b,
                ) implies set_contains(r.models(), x_sub(a, b)) by {
                let i = choose|i: int|
                    0 <= i < sm.len() && in_pair(a, (#[trigger] models_of(sm)[i]).0, models_of(sm)[i].1);
                let j = choose|j: int|
                    0 <= j < rm.len() && in_pair(b, (#[trigger] models_of(rm)[j]).0, models_of(rm)[j].1);
                assert forall|x: Interval<BOUND>, y: Interval<BOUND>, out: Vec<Interval<BOUND>>|
                    x.lo_m() == sm[i].lo_m() && x.hi_m() == sm[i].hi_m() && x.prec()
                        == sm[i].prec() && y.lo_m() == rm[j].lo_m() && y.hi_m() == rm[j].hi_m()
                        && y.prec() == rm[j].prec() && #[trigger] call_ensures(
                        Self::op_sub,
                        (x, y),
                        out,
                    ) implies set_contains(models_of(out@), x_sub(a, b)) by {
                    assert(in_pair(a, x.lo_m(), x.hi_m()));
                    assert(in_pair(b, y.lo_m(), y.hi_m()));
                }
                assert(op_yields(
                    Self::op_sub,
                    sm[i].lo_m(),
                    sm[i].hi_m(),
                    sm[i].prec(),
                    rm[j].lo_m(),
                    rm[j].hi_m(),
                    rm[j].prec(),
                    x_sub(a, b),
                ));
            }
        }
        r
    }

    /// Correctly rounded multiplication, member pair by member pair: every
    /// pointwise product of members lands in the result.
    pub fn mul(self, rhs: Self) -> (r: Self)
        requires
            uniform_prec(self.intervals@ + rhs.intervals@),
        ensures
            is_normalized(r.models()),
            (self.models().len() == 0 || rhs.models().len() == 0) ==> r.models() =~= Seq::<
                (Xv, Xv),
            >::empty(),
            forall|a: Xv, b: Xv|
                #[trigger] set_contains(self.models(), a) && #[trigger] set_contains(
                    rhs.models(),
                    b,
                ) ==> set_contains(r.models(), x_mul(a, b)),
    {
        let ghost sm = self.intervals@;
        let ghost rm = rhs.intervals@;
        let r = self.binary_op(rhs, Self::op_mul);
        proof {
            assert forall|a: Xv, b: Xv|
                #[trigger] set_contains(models_of(sm), a) && #[trigger] set_contains(
                    models_of(rm),
                    b,
                ) implies set_contains(r.models(), x_mul(a, b)) by {
                let i = choose|i: int|
                    0 <= i < sm.len() && in_pair(a, (#[trigger] models_of(sm)[i]).0, models_of(sm)[i].1);
                let j = choose|j: int|
                    0 <= j < rm.len() && in_pair(b, (#[trigger] models_of(rm)[j]).0, models_of(rm)[j].1);
                assert forall|x: Interval<BOUND>, y: Interval<BOUND>, out: Vec<Interval<BOUND>>|
                    x.lo_m() == sm[i].lo_m() && x.hi_m() == sm[i].hi_m() && x.prec()
                        == sm[i].prec() && y.lo_m() == rm[j].lo_m() && y.hi_m() == rm[j].hi_m()
                        && y.prec() == rm[j].prec() && #[trigger] call_ensures(
                        Self::op_mul,
                        (x, y),
                        out,
                    ) implies set_contains(models_of(out@), x_mul(a, b)) by {
                    assert(in_pair(a, x.lo_m(), x.hi_m()));
                    assert(in_pair(b, y.lo_m(), y.hi_m()));
                }
                assert(op_yields(
                    Self::op_mul,
                    sm[i].lo_m(),
                    sm[i].hi_m(),
                    sm[i].prec(),
                    rm[j].lo_m(),
                    rm[j].hi_m(),
                    rm[j].prec(),
                    x_mul(a, b),
                ));
            }
        }
        r
    }

    /// Correctly rounded division, member pair by member pair; a divisor
    /// member straddling zero can contribute two rays. Whenever the exact
    /// quotient of two member points is itself a representable point, that
    /// point lands in the result.
    pub fn div(self, rhs: Self) -> (r: Self)
        requires
            uniform_prec(self.intervals@ + rhs.intervals@),
        ensures
            is_normalized(r.models()),
            (self.models().len() == 0 || rhs.models().len() == 0) ==> r.models() =~= Seq::<
                (Xv, Xv),
            >::empty(),
            forall|a: Xv, b: Xv, q: Xv|
                #[trigger] set_contains(self.models(), a) && #[trigger] set_contains(
                    rhs.models(),
                    b,
                ) && x_sign(b) != 0 && q is Fin && x_eq(#[trigger] x_mul(q, b), a)
                    ==> set_contains(r.models(), q),
    {
        let ghost sm = self.intervals@;
        let ghost rm = rhs.intervals@;
        let r = self.binary_op(rhs, Self::op_div);
        proof {
            assert forall|a: Xv, b: Xv, q: Xv|
                #[trigger] set_contains(models_of(sm), a) && #[trigger] set_contains(
                    models_of(rm),
                    b,
                ) && x_sign(b) != 0 && q is Fin && x_eq(
                    #[trigger] x_mul(q, b),
                    a,
                ) implies set_contains(r.models(), q) by {
                let i = choose|i: int|
                    0 <= i < sm.len() && in_pair(a, (#[trigger] models_of(sm)[i]).0, models_of(sm)[i].1);
                let j = choose|j: int|
                    0 <= j < rm.len() && in_pair(b, (#[trigger] models_of(rm)[j]).0, models_of(rm)[j].1);
                assert forall|x: Interval<BOUND>, y: Interval<BOUND>, out: Vec<Interval<BOUND>>|
                    x.lo_m() == sm[i].lo_m() && x.hi_m() == sm[i].hi_m() && x.prec()
                        == sm[i].prec() && y.lo_m() == rm[j].lo_m() && y.hi_m() == rm[j].hi_m()
                        && y.prec() == rm[j].prec() && #[trigger] call_ensures(
                        Self::op_div,
                        (x, y),
                        out,
                    ) implies set_contains(models_of(out@), q) by {
                    assert(in_pair(a, x.lo_m(), x.hi_m()));
                    assert(in_pair(b, y.lo_m(), y.hi_m()));
                    let t = choose|t: int|
                        0 <= t < out@.len() && quot_in(
                            a,
                            b,
                            (#[trigger] models_of(out@)[t]).0,
                            models_of(out@)[t].1,
                        );
                    lemma_exact_quot_in_pair(
                        a,
                        b,
                        q,
                        models_of(out@)[t].0,
                        models_of(out@)[t].1,
                    );
                }
                assert(op_yields(
                    Self::op_div,
                    sm[i].lo_m(),
                    sm[i].hi_m(),
                    sm[i].prec(),
                    rm[j].lo_m(),
                    rm[j].hi_m(),
                    rm[j].prec(),
                    q,
                ));
            }
        }
        r
    }

    /// The textual form of `self`: `{}` when empty, the single member's form
    /// alone, or the members joined by `; ` inside braces.
    pub fn display_string(&self) -> (r: String)
        ensures
            r@.len() > 0,
            self.intervals@.len() == 0 ==> r@ =~= seq!['{', '}'],
            self.intervals@.len() == 1 ==> iv_display_rel::<BOUND>(
                self.intervals@[0].lo_m(),
                self.intervals@[0].hi_m(),
                self.intervals@[0].prec(),
                r@,
            ),
            self.intervals@.len() >= 2 ==> r@.len() >= 2 && r@[0] == '{' && r@[r@.len() - 1]
                == '}',
    {
        let n = self.intervals.len();
        if n == 0 {
            let r = "{}".to_owned();
            proof {
                reveal_strlit("{}");
            }
            r
        } else if n == 1 {
            self.intervals[0].display_string()
        } else {
            let mut out = String::new();
            out.append("{");
            proof {
                reveal_strlit("{");
            }
            let mut i: usize = 0;
            while i < n
                invariant
                    n == self.intervals@.len(),
                    0 <= i <= n,
                    out@.len() >= 1,
                    out@[0] == '{',
                decreases n - i,
            {
                if i > 0 {
                    out.append("; ");
                }
                out.append(self.intervals[i].display_string().as_str());
                i += 1;
            }
            out.append("}");
            proof {
                reveal_strlit("}");
                assert(out@[out@.len() - 1] == '}');
            }
            out
        }
    }
}

impl<BOUND: Float> IntervalSet<BOUND> {
    /// Correctly rounded natural logarithm, member by member; images of
    /// different members can overlap, so the results are renormalized. The
    /// result's points are exactly the points of the members' logarithm
    /// intervals; an empty set stays empty.
    pub fn log(self) -> (r: Self)
        requires
            uniform_prec(self.intervals@),
        ensures
            is_normalized(r.models()),
            self.intervals@.len() == 0 ==> r.intervals@.len() == 0,
            forall|q: Xv|
                #[trigger] set_contains(r.models(), q) <==> exists|i: int|
                    0 <= i < self.intervals@.len() && in_pair(
                        q,
                        log_pair::<BOUND>(
                            (#[trigger] self.intervals@[i]).lo_m(),
                            self.intervals@[i].hi_m(),
                            self.intervals@[i].prec(),
                        ).0,
                        log_pair::<BOUND>(
                            self.intervals@[i].lo_m(),
                            self.intervals@[i].hi_m(),
                            self.intervals@[i].prec(),
                        ).1,
                    ),
    {
        let ghost orig = self.intervals@;
        let n = self.intervals.len();
        let mut mapped: Vec<Interval<BOUND>> = Vec::new();
        let mut i: usize = 0;
        while i < n
            invariant
                n == orig.len(),
                self.intervals@ == orig,
                uniform_prec(orig),
                0 <= i <= n,
                mapped@.len() == i,
                forall|j: int| 0 <= j < i ==> (#[trigger] mapped@[j]).prec() == orig[j].prec(),
                forall|j: int|
                    0 <= j < i ==> ((#[trigger] mapped@[j]).lo_m(), mapped@[j].hi_m())
                        == log_pair::<BOUND>(orig[j].lo_m(), orig[j].hi_m(), orig[j].prec()),
            decreases n - i,
        {
            let iv = self.intervals[i].clone();
            mapped.push(iv.log());
            i += 1;
        }
        proof {
            assert(uniform_prec(mapped@));
        }
        let r = Self::from_intervals(mapped);
        proof {
            assert forall|q: Xv|
                #[trigger] set_contains(r.models(), q) <==> exists|i2: int|
                    0 <= i2 < orig.len() && in_pair(
                        q,
                        log_pair::<BOUND>(
                            (#[trigger] orig[i2]).lo_m(),
                            orig[i2].hi_m(),
                            orig[i2].prec(),
                        ).0,
                        log_pair::<BOUND>(
                            orig[i2].lo_m(),
                            orig[i2].hi_m(),
                            orig[i2].prec(),
                        ).1,
                    ) by {
                assert(set_contains(r.models(), q) <==> set_contains(models_of(mapped@), q));
                if set_contains(models_of(mapped@), q) {
                    let t = choose|t: int|
                        0 <= t < mapped@.len() && in_pair(
                            q,
                            (#[trigger] models_of(mapped@)[t]).0,
                            models_of(mapped@)[t].1,
                        );
                    assert(in_pair(
                        q,
                        log_pair::<BOUND>(
                            orig[t].lo_m(),
                            orig[t].hi_m(),
                            orig[t].prec(),
                        ).0,
                        log_pair::<BOUND>(orig[t].lo_m(), orig[t].hi_m(), orig[t].prec()).1,
                    ));
                }
                if exists|i2: int|
                    0 <= i2 < orig.len() && in_pair(
                        q,
                        log_pair::<BOUND>(
                            (#[trigger] orig[i2]).lo_m(),
                            orig[i2].hi_m(),
                            orig[i2].prec(),
                        ).0,
                        log_pair::<BOUND>(
                            orig[i2].lo_m(),
                            orig[i2].hi_m(),
                            orig[i2].prec(),
                        ).1,
                    ) {
                    let t = choose|t: int|
                        0 <= t < orig.len() && in_pair(
                            q,
                            log_pair::<BOUND>(
                                (#[trigger] orig[t]).lo_m(),
                                orig[t].hi_m(),
                                orig[t].prec(),
                            ).0,
                            log_pair::<BOUND>(
                                orig[t].lo_m(),
                                orig[t].hi_m(),
                                orig[t].prec(),
                            ).1,
                        );
                    assert(in_pair(
                        q,
                        (#[trigger] models_of(mapped@)[t]).0,
                        models_of(mapped@)[t].1,
                    ));
                }
            }
        }
        r
    }

    /// Correctly rounded natural exponential, member by member, then
    /// renormalized. The result's points are exactly the points of the
    /// members' exponential intervals; an empty set stays empty.
    pub fn exp(self) -> (r: Self)
        requires
            uniform_prec(self.intervals@),
        ensures
            is_normalized(r.models()),
            self.intervals@.len() == 0 ==> r.intervals@.len() == 0,
            forall|q: Xv|
                #[trigger] set_contains(r.models(), q) <==> exists|i: int|
                    0 <= i < self.intervals@.len() && in_pair(
                        q,
                        exp_pair::<BOUND>(
                            (#[trigger] self.intervals@[i]).lo_m(),
                            self.intervals@[i].hi_m(),
                            self.intervals@[i].prec(),
                        ).0,
                        exp_pair::<BOUND>(
                            self.intervals@[i].lo_m(),
                            self.intervals@[i].hi_m(),
                            self.intervals@[i].prec(),
                        ).1,
                    ),
    {
        let ghost orig = self.intervals@;
        let n = self.intervals.len();
        let mut mapped: Vec<Interval<BOUND>> = Vec::new();
        let mut i: usize = 0;
        while i < n
            invariant
                n == orig.len(),
                self.intervals@ == orig,
                uniform_prec(orig),
                0 <= i <= n,
                mapped@.len() == i,
                forall|j: int| 0 <= j < i ==> (#[trigger] mapped@[j]).prec() == orig[j].prec(),
                forall|j: int|
                    0 <= j < i ==> ((#[trigger] mapped@[j]).lo_m(), mapped@[j].hi_m())
                        == exp_pair::<BOUND>(orig[j].lo_m(), orig[j].hi_m(), orig[j].prec()),
            decreases n - i,
        {
            let iv = self.intervals[i].clone();
            mapped.push(iv.exp());
            i += 1;
        }
        proof {
            assert(uniform_prec(mapped@));
        }
        let r = Self::from_intervals(mapped);
        proof {
            assert forall|q: Xv|
                #[trigger] set_contains(r.models(), q) <==> exists|i2: int|
                    0 <= i2 < orig.len() && in_pair(
                        q,
                        exp_pair::<BOUND>(
                            (#[trigger] orig[i2]).lo_m(),
                            orig[i2].hi_m(),
                            orig[i2].prec(),
                        ).0,
                        exp_pair::<BOUND>(
                            orig[i2].lo_m(),
                            orig[i2].hi_m(),
                            orig[i2].prec(),
                        ).1,
                    ) by {
                assert(set_contains(r.models(), q) <==> set_contains(models_of(mapped@), q));
                if set_contains(models_of(mapped@), q) {
                    let t = choose|t: int|
                        0 <= t < mapped@.len() && in_pair(
                            q,
                            (#[trigger] models_of(mapped@)[t]).0,
                            models_of(mapped@)[t].1,
                        );
                    assert(in_pair(
                        q,
                        exp_pair::<BOUND>(
                            orig[t].lo_m(),
                            orig[t].hi_m(),
                            orig[t].prec(),
                        ).0,
                        exp_pair::<BOUND>(orig[t].lo_m(), orig[t].hi_m(), orig[t].prec()).1,
                    ));
                }
                if exists|i2: int|
                    0 <= i2 < orig.len() && in_pair(
                        q,
                        exp_pair::<BOUND>(
                            (#[trigger] orig[i2]).lo_m(),
                            orig[i2].hi_m(),
                            orig[i2].prec(),
                        ).0,
                        exp_pair::<BOUND>(
                            orig[i2].lo_m(),
                            orig[i2].hi_m(),
                            orig[i2].prec(),
                        ).1,
                    ) {
                    let t = choose|t: int|
                        0 <= t < orig.len() && in_pair(
                            q,
                            exp_pair::<BOUND>(
                                (#[trigger] orig[t]).lo_m(),
                                orig[t].hi_m(),
                                orig[t].prec(),
                            ).0,
                            exp_pair::<BOUND>(
                                orig[t].lo_m(),
                                orig[t].hi_m(),
                                orig[t].prec(),
                            ).1,
                        );
                    assert(in_pair(
                        q,
                        (#[trigger] models_of(mapped@)[t]).0,
                        models_of(mapped@)[t].1,
                    ));
                }
            }
        }
        r
    }

    /// Correctly rounded power, member pair by member pair; a single pair
    /// can contribute up to two disjoint result intervals.
    pub fn pow(self, rhs: Self) -> (r: Self)
        requires
            uniform_prec(self.intervals@ + rhs.intervals@),
        ensures
            is_normalized(r.models()),
            (self.models().len() == 0 || rhs.models().len() == 0) ==> r.models() =~= Seq::<
                (Xv, Xv),
            >::empty(),
    {
        self.binary_op(rhs, Self::op_pow)
    }
}

impl<BOUND: Float> crate::transc::Transc for IntervalSet<BOUND> {
    type Output = Self;

    /// `pow` needs one precision across both operands.
    open spec fn pow_compat(&self, rhs: &Self) -> bool {
        uniform_prec(self.intervals@ + rhs.intervals@)
    }

    /// The unary operations need one precision across the members.
    open spec fn unary_ok(&self) -> bool {
        uniform_prec(self.intervals@)
    }

    fn log(self) -> Self::Output {
        IntervalSet::log(self)
    }

    fn exp(self) -> Self::Output {
        IntervalSet::exp(self)
    }

    fn pow(self, rhs: Self) -> Self::Output {
        IntervalSet::pow(self, rhs)
    }
}

impl<BOUND: Float> core::str::FromStr for IntervalSet<BOUND> {
    type Err = ParseIntervalSetError;

    /// Parses at the default precision of 53 bits.
    fn from_str(s: &str) -> Result<Self, Self::Err> {
        Self::from_str_with_prec(s, 53)
    }
}

impl<BOUND: Float> PartialEq for IntervalSet<BOUND> {
    /// Two sets are equal when they hold the same members in the same order,
    /// compared by bound values.
    fn eq(&self, rhs: &Self) -> (r: bool) {
        let n = self.intervals.len();
        if n != rhs.intervals.len() {
            return false;
        }
        let mut i: usize = 0;
        while i < n
            invariant
                n == self.intervals@.len(),
                n == rhs.intervals@.len(),
                0 <= i <= n,
                forall|j: int|
                    0 <= j < i ==> member_eq(#[trigger] self.intervals@[j], rhs.intervals@[j]),
            decreases n - i,
        {
            if !(self.intervals[i] == rhs.intervals[i]) {
                return false;
            }
            i += 1;
        }
        true
    }
}

impl<BOUND: Float> vstd::std_specs::cmp::PartialEqSpecImpl for IntervalSet<BOUND> {
    open spec fn obeys_eq_spec() -> bool {
        true
    }

    open spec fn eq_spec(&self, rhs: &Self) -> bool {
        self.intervals@.len() == rhs.intervals@.len() && (forall|j: int|
            0 <= j < self.intervals@.len() ==> member_eq(
                #[trigger] self.intervals@[j],
                rhs.intervals@[j],
            ))
    }
}

/// Member equality as the set comparison sees it: both members empty, or
/// bounds with pairwise equal values.
pub open spec fn member_eq<B: Float>(a: Interval<B>, b: Interval<B>) -> bool {
    (x_is_nan(a.lo_m()) && x_is_nan(b.lo_m())) || (x_eq(a.lo_m(), b.lo_m()) && x_eq(
        a.hi_m(),
        b.hi_m(),
    ))
}

/// The member intervals, as bound-model pairs, are each well formed and
/// never empty.
pub open spec fn wf_elem<B: Float>(iv: Interval<B>) -> bool {
    &&& !x_is_nan(iv.lo_m())
    &&& !x_is_nan(iv.hi_m())
    &&& x_le(iv.lo_m(), iv.hi_m())
    &&& !(iv.lo_m() is PInf)
    &&& !(iv.hi_m() is NInf)
}

/// Every member of `s` satisfies `wf_elem`.
pub open spec fn wf_elems<B: Float>(s: Seq<Interval<B>>) -> bool {
    forall|j: int| 0 <= j < s.len() ==> wf_elem(#[trigger] s[j])
}

/// Appending one interval adds exactly its points to a member list.
proof fn lemma_set_contains_push<B: Float>(s: Seq<Interval<B>>, iv: Interval<B>, x: Xv)
    ensures
        set_contains(models_of(s.push(iv)), x) <==> (set_contains(models_of(s), x) || in_pair(
            x,
            iv.lo_m(),
            iv.hi_m(),
        )),
{
    let t = s.push(iv);
    assert(models_of(t)[s.len() as int] == (iv.lo_m(), iv.hi_m()));
    assert(forall|i: int| 0 <= i < s.len() ==> (#[trigger] models_of(t)[i]) == models_of(s)[i]);
    if set_contains(models_of(t), x) {
        let i = choose|i: int| 0 <= i < t.len() && in_pair(x, (#[trigger] models_of(t)[i]).0, models_of(t)[i].1);
        if i < s.len() {
            assert(in_pair(x, models_of(s)[i].0, models_of(s)[i].1));
        }
    }
    if set_contains(models_of(s), x) {
        let i = choose|i: int| 0 <= i < s.len() && in_pair(x, (#[trigger] models_of(s)[i]).0, models_of(s)[i].1);
        assert(in_pair(x, models_of(t)[i].0, models_of(t)[i].1));
    }
    if in_pair(x, iv.lo_m(), iv.hi_m()) {
        assert(in_pair(x, models_of(t)[s.len() as int].0, models_of(t)[s.len() as int].1));
    }
}

/// Inserting one interval anywhere adds exactly its points to a member list.
proof fn lemma_set_contains_insert<B: Float>(s: Seq<Interval<B>>, pos: int, iv: Interval<B>, x: Xv)
    requires
        0 <= pos <= s.len(),
    ensures
        set_contains(models_of(s.insert(pos, iv)), x) <==> (set_contains(models_of(s), x)
            || in_pair(x, iv.lo_m(), iv.hi_m())),
{
    let t = s.insert(pos, iv);
    s.insert_ensures(pos, iv);
    assert(models_of(t)[pos] == (iv.lo_m(), iv.hi_m()));
    if set_contains(models_of(t), x) {
        let i = choose|i: int| 0 <= i < t.len() && in_pair(x, (#[trigger] models_of(t)[i]).0, models_of(t)[i].1);
        if i < pos {
            assert(t[i] == s[i]);
            assert(in_pair(x, (#[trigger] models_of(s)[i]).0, models_of(s)[i].1));
        } else if i > pos {
            assert(t[i] == s[i - 1]);
            assert(in_pair(x, (#[trigger] models_of(s)[i - 1]).0, models_of(s)[i - 1].1));
        }
    }
    if set_contains(models_of(s), x) {
        let i = choose|i: int| 0 <= i < s.len() && in_pair(x, (#[trigger] models_of(s)[i]).0, models_of(s)[i].1);
        if i < pos {
            assert(t[i] == s[i]);
            assert(in_pair(x, (#[trigger] models_of(t)[i]).0, models_of(t)[i].1));
        } else {
            assert(t[i + 1] == s[i]);
            assert(in_pair(x, (#[trigger] models_of(t)[i + 1]).0, models_of(t)[i + 1].1));
        }
    }
    if in_pair(x, iv.lo_m(), iv.hi_m()) {
        assert(in_pair(x, (#[trigger] models_of(t)[pos]).0, models_of(t)[pos].1));
    }
}

/// When the exact quotient `a / b` is itself a representable point `q`
/// (that is, `q * b` has exactly the value `a`), any pair that brackets the
/// quotient contains `q`.
proof fn lemma_exact_quot_in_pair(a: Xv, b: Xv, q: Xv, u: Xv, w: Xv)
    requires
        a is Fin && b is Fin && q is Fin,
        x_sign(b) != 0,
        x_eq(x_mul(q, b), a),
        quot_in(a, b, u, w),
    ensures
        in_pair(q, u, w),
{
    let qb = x_mul(q, b);
    if x_sign(b) > 0 {
        lemma_x_trans(x_mul(u, b), a, qb);
        lemma_x_trans(qb, a, x_mul(w, b));
        if u is Fin {
            crate::model::lemma_dy_mul_cancel_r(u->Fin_0, q->Fin_0, b->Fin_0);
        }
        if w is Fin {
            crate::model::lemma_dy_mul_cancel_r(q->Fin_0, w->Fin_0, b->Fin_0);
        }
    } else {
        lemma_x_trans(x_mul(w, b), a, qb);
        lemma_x_trans(qb, a, x_mul(u, b));
        if u is Fin {
            crate::model::lemma_dy_mul_cancel_r(u->Fin_0, q->Fin_0, b->Fin_0);
        }
        if w is Fin {
            crate::model::lemma_dy_mul_cancel_r(q->Fin_0, w->Fin_0, b->Fin_0);
        }
    }
}

/// Two overlapping or touching intervals cover, together, exactly the
/// points of their merged hull.
proof fn lemma_pair_merge(l1: Xv, h1: Xv, l2: Xv, h2: Xv, hh: Xv, x: Xv)
    requires
        !x_is_nan(l1) && !x_is_nan(h1) && !x_is_nan(l2) && !x_is_nan(h2),
        x_le(l1, h1),
        x_le(l2, h2),
        x_le(l1, l2),
        x_le(l2, h1),
        hh == if x_lt(h1, h2) {
            h2
        } else {
            h1
        },
    ensures
        in_pair(x, l1, hh) <==> (in_pair(x, l1, h1) || in_pair(x, l2, h2)),
{
    lemma_x_total(h1, h2);
    if in_pair(x, l1, h1) {
        if x_lt(h1, h2) {
            lemma_x_trans(x, h1, h2);
        }
    }
    if in_pair(x, l2, h2) {
        lemma_x_trans(l1, l2, x);
        if !x_lt(h1, h2) {
            lemma_x_trans(x, h2, h1);
        }
    }
    if in_pair(x, l1, hh) {
        lemma_x_total(x, h1);
        if !x_le(x, h1) {
            // x lies past the first interval, so it lies in the second
            lemma_x_trans(l2, h1, x);
        }
    }
}

/// Appending a non-empty interval that starts strictly after the last
/// member's end keeps a member list normalized.
proof fn lemma_push_normalized<B: Float>(s: Seq<Interval<B>>, iv: Interval<B>)
    requires
        is_normalized(models_of(s)),
        !x_is_nan(iv.lo_m()),
        s.len() > 0 ==> x_lt(models_of(s)[s.len() - 1].1, iv.lo_m()),
    ensures
        is_normalized(models_of(s.push(iv))),
{
    let t = s.push(iv);
    let mt = models_of(t);
    let ms = models_of(s);
    assert forall|i: int| 0 <= i < mt.len() implies !x_is_nan((#[trigger] mt[i]).0) by {
        if i < s.len() {
            assert(mt[i] == (t[i].lo_m(), t[i].hi_m()));
            assert(t[i] == s[i]);
            assert(ms[i] == (s[i].lo_m(), s[i].hi_m()));
        } else {
            assert(mt[i] == (iv.lo_m(), iv.hi_m()));
        }
    }
    assert forall|i: int| 0 <= i < mt.len() - 1 implies x_lt(
        (#[trigger] mt[i]).1,
        mt[i + 1].0,
    ) by {
        assert(mt[i] == (t[i].lo_m(), t[i].hi_m()));
        assert(mt[i + 1] == (t[i + 1].lo_m(), t[i + 1].hi_m()));
        if i + 1 < s.len() {
            assert(t[i] == s[i] && t[i + 1] == s[i + 1]);
            assert(ms[i] == (s[i].lo_m(), s[i].hi_m()));
            assert(ms[i + 1] == (s[i + 1].lo_m(), s[i + 1].hi_m()));
            assert(x_lt(ms[i].1, ms[i + 1].0));
        } else {
            assert(t[i] == s[i] && t[i + 1] == iv);
            assert(ms[i] == (s[i].lo_m(), s[i].hi_m()));
        }
    }
}

/// The members of `s` are sorted ascending by lower bound.
pub open spec fn sorted_by_lo<B: Float>(s: Seq<Interval<B>>) -> bool {
    forall|a: int, b: int|
        0 <= a < b < s.len() ==> x_le((#[trigger] s[a]).lo_m(), (#[trigger] s[b]).lo_m())
}

} // verus!
