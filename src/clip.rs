use vstd::prelude::*;

verus! {

/// `input` bounded below by `min` and above by `max`.
pub open spec fn clamp_spec(input: i64, min: i64, max: i64) -> i64 {
    if input < min {
        min
    } else if input > max {
        max
    } else {
        input
    }
}

/// `input` bounded below by `min`.
pub open spec fn clamp_min_spec(input: i64, min: i64) -> i64 {
    if input < min {
        min
    } else {
        input
    }
}

/// `input` bounded above by `max`.
pub open spec fn clamp_max_spec(input: i64, max: i64) -> i64 {
    if input > max {
        max
    } else {
        input
    }
}

/// Relies on num_traits::clamp: `min` if `input < min`, `max` if
/// `input > max`, else `input`; it panics in debug builds unless `min <= max`.
#[verifier::external_body]
fn clamp(input: i64, min: i64, max: i64) -> (r: i64)
    requires
        min <= max,
    ensures
        r == clamp_spec(input, min, max),
{
    num_traits::clamp(input, min, max)
}

/// Relies on num_traits::clamp_min: `min` if `input < min`, else `input`.
#[verifier::external_body]
fn clamp_min(input: i64, min: i64) -> (r: i64)
    ensures
        r == clamp_min_spec(input, min),
{
    num_traits::clamp_min(input, min)
}

/// Relies on num_traits::clamp_max: `max` if `input > max`, else `input`.
#[verifier::external_body]
fn clamp_max(input: i64, max: i64) -> (r: i64)
    ensures
        r == clamp_max_spec(input, max),
{
    num_traits::clamp_max(input, max)
}

/// Why `clip`, `clip_min` or `clip_max` refused its arguments.
#[derive(Debug, PartialEq, Eq)]
pub enum ClipError {
    /// Argument `argument_idx` of `clip` (0: the values, 1: `min`, 2: `max`)
    /// has `length` rows, which is neither `expected` nor one.
    LengthMismatch { argument_idx: usize, length: usize, expected: usize },
    /// The values and the single bound differ in length and neither has one row.
    PairLengthMismatch { length: usize, bound_length: usize },
}

/// Row `i` of a column, a column of one row standing for every row.
pub open spec fn at(c: Seq<Option<i64>>, i: int) -> Option<i64> {
    if c.len() == 1 {
        c[0]
    } else {
        c[i]
    }
}

/// One row of `clip`: nulls stay null, a null bound does not apply.
pub open spec fn clip_value(v: Option<i64>, min: Option<i64>, max: Option<i64>) -> Option<i64> {
    match v {
        None => None,
        Some(x) => Some(
            match (min, max) {
                (Some(a), Some(b)) => clamp_spec(x, a, b),
                (Some(a), None) => clamp_min_spec(x, a),
                (None, Some(b)) => clamp_max_spec(x, b),
                (None, None) => x,
            },
        ),
    }
}

/// One row of `clip_min` (`upper` false) or `clip_max` (`upper` true).
pub open spec fn clip_one_value(v: Option<i64>, bound: Option<i64>, upper: bool) -> Option<i64> {
    match (v, bound) {
        (None, _) => None,
        (Some(x), None) => Some(x),
        (Some(x), Some(b)) => Some(
            if upper {
                clamp_max_spec(x, b)
            } else {
                clamp_min_spec(x, b)
            },
        ),
    }
}

/// The common length of three columns: the first length that is not one,
/// or one.
pub open spec fn common_len(a: nat, b: nat, c: nat) -> nat {
    if a != 1 {
        a
    } else if b != 1 {
        b
    } else if c != 1 {
        c
    } else {
        1
    }
}

/// Where a row's value and both of its bounds are present, the lower bound
/// is at most the upper.
pub open spec fn bounds_ordered(
    n: nat,
    s: Seq<Option<i64>>,
    min: Seq<Option<i64>>,
    max: Seq<Option<i64>>,
) -> bool {
    forall|i: int|
        0 <= i < n && at(s, i) is Some ==> match (#[trigger] at(min, i), at(max, i)) {
            (Some(a), Some(b)) => a <= b,
            _ => true,
        }
}

/// Each bound has the common length `n` or a single row.
pub open spec fn bounds_fit(n: nat, min: Seq<Option<i64>>, max: Seq<Option<i64>>) -> bool {
    (min.len() == n || min.len() == 1) && (max.len() == n || max.len() == 1)
}

/// Clamps each row of `ca` between the matching rows of `min` and `max`.
fn clip_helper_both_bounds(
    ca: &Vec<Option<i64>>,
    min: &Vec<Option<i64>>,
    max: &Vec<Option<i64>>,
    n: usize,
) -> (r: Vec<Option<i64>>)
    requires
        ca@.len() == n || ca@.len() == 1,
        min@.len() == n || min@.len() == 1,
        max@.len() == n || max@.len() == 1,
        bounds_ordered(n as nat, ca@, min@, max@),
    ensures
        r@.len() == n,
        forall|i: int| 0 <= i < n ==> r@[i] == clip_value(at(ca@, i), at(min@, i), at(max@, i)),
{
    let mut out: Vec<Option<i64>> = Vec::new();
    let mut i: usize = 0;
    while i < n
        invariant
            0 <= i <= n,
            ca@.len() == n || ca@.len() == 1,
            min@.len() == n || min@.len() == 1,
            max@.len() == n || max@.len() == 1,
            bounds_ordered(n as nat, ca@, min@, max@),
            out@.len() == i,
            forall|j: int|
                0 <= j < i ==> out@[j] == clip_value(at(ca@, j), at(min@, j), at(max@, j)),
        decreases n - i,
    {
        let v = if ca.len() == 1 { ca[0] } else { ca[i] };
        let lo = if min.len() == 1 { min[0] } else { min[i] };
        let hi = if max.len() == 1 { max[0] } else { max[i] };
        proof {
            assert(at(ca@, i as int) == v && at(min@, i as int) == lo && at(max@, i as int) == hi);
        }
        let row = match v {
            None => None,
            Some(x) => Some(
                match (lo, hi) {
                    (Some(a), Some(b)) => clamp(x, a, b),
                    (Some(a), None) => clamp_min(x, a),
                    (None, Some(b)) => clamp_max(x, b),
                    (None, None) => x,
                },
            ),
        };
        out.push(row);
        i = i + 1;
    }
    out
}

/// Bounds each row of `ca` by the matching row of `bound`: from above when
/// `upper` holds, else from below.
fn clip_helper_single_bound(ca: &Vec<Option<i64>>, bound: &Vec<Option<i64>>, upper: bool) -> (r:
    Vec<Option<i64>>)
    requires
        ca@.len() == bound@.len() || ca@.len() == 1 || bound@.len() == 1,
    ensures
        r@.len() == if bound@.len() == 1 {
            ca@.len()
        } else {
            bound@.len()
        },
        forall|i: int|
            0 <= i < r@.len() ==> r@[i] == clip_one_value(at(ca@, i), at(bound@, i), upper),
{
    let n: usize = if bound.len() == 1 { ca.len() } else { bound.len() };
    let mut out: Vec<Option<i64>> = Vec::new();
    let mut i: usize = 0;
    while i < n
        invariant
            0 <= i <= n,
            n == if bound@.len() == 1 { ca@.len() } else { bound@.len() },
            ca@.len() == bound@.len() || ca@.len() == 1 || bound@.len() == 1,
            out@.len() == i,
            forall|j: int| 0 <= j < i ==> out@[j] == clip_one_value(at(ca@, j), at(bound@, j), upper),
        decreases n - i,
    {
        let v = if ca.len() == 1 { ca[0] } else { ca[i] };
        let b = if bound.len() == 1 { bound[0] } else { bound[i] };
        let row = match (v, b) {
            (None, _) => None,
            (Some(x), None) => Some(x),
            (Some(x), Some(y)) => Some(
                if upper {
                    clamp_max(x, y)
                } else {
                    clamp_min(x, y)
                },
            ),
        };
        out.push(row);
        i = i + 1;
    }
    out
}

/// Sets the values of `s` outside the bounds `min` and `max` to the bound.
/// Each argument has the common length (the first length that is not one)
/// or a single row, which stands for every row; null values stay null and a
/// null bound does not apply.
pub fn clip(s: &Vec<Option<i64>>, min: &Vec<Option<i64>>, max: &Vec<Option<i64>>) -> (r: Result<
    Vec<Option<i64>>,
    ClipError,
>)
    requires
        bounds_fit(common_len(s@.len(), min@.len(), max@.len()), min@, max@) ==> bounds_ordered(
            common_len(s@.len(), min@.len(), max@.len()),
            s@,
            min@,
            max@,
        ),
    ensures
        ({
            let n = common_len(s@.len(), min@.len(), max@.len());
            &&& r is Ok <==> (min@.len() == n || min@.len() == 1) && (max@.len() == n || max@.len()
                == 1)
            &&& r matches Ok(out) ==> out@.len() == n && forall|i: int|
                0 <= i < n ==> out@[i] == clip_value(at(s@, i), at(min@, i), at(max@, i))
            &&& !(min@.len() == n || min@.len() == 1) ==> r == Err::<Vec<Option<i64>>, ClipError>(
                ClipError::LengthMismatch { argument_idx: 1, length: min@.len() as usize, expected: n as usize },
            )
            &&& (min@.len() == n || min@.len() == 1) && !(max@.len() == n || max@.len() == 1) ==> r
                == Err::<Vec<Option<i64>>, ClipError>(
                ClipError::LengthMismatch { argument_idx: 2, length: max@.len() as usize, expected: n as usize },
            )
        }),
{
    let n: usize = if s.len() != 1 {
        s.len()
    } else if min.len() != 1 {
        min.len()
    } else if max.len() != 1 {
        max.len()
    } else {
        1
    };
    if min.len() != n && min.len() != 1 {
        return Err(ClipError::LengthMismatch { argument_idx: 1, length: min.len(), expected: n });
    }
    if max.len() != n && max.len() != 1 {
        return Err(ClipError::LengthMismatch { argument_idx: 2, length: max.len(), expected: n });
    }
    Ok(clip_helper_both_bounds(s, min, max, n))
}

/// Sets the values of `s` above `max` to `max`. The two have equal lengths,
/// or one of them a single row, which stands for every row.
pub fn clip_max(s: &Vec<Option<i64>>, max: &Vec<Option<i64>>) -> (r: Result<
    Vec<Option<i64>>,
    ClipError,
>)
    ensures
        r is Ok <==> s@.len() == max@.len() || s@.len() == 1 || max@.len() == 1,
        r is Err ==> r == Err::<Vec<Option<i64>>, ClipError>(
            ClipError::PairLengthMismatch { length: s@.len() as usize, bound_length: max@.len() as usize },
        ),
        r matches Ok(out) ==> out@.len() == (if max@.len() == 1 {
            s@.len()
        } else {
            max@.len()
        }) && forall|i: int|
            0 <= i < out@.len() ==> out@[i] == clip_one_value(at(s@, i), at(max@, i), true),
{
    if !(s.len() == max.len() || s.len() == 1 || max.len() == 1) {
        return Err(ClipError::PairLengthMismatch { length: s.len(), bound_length: max.len() });
    }
    Ok(clip_helper_single_bound(s, max, true))
}

/// Sets the values of `s` below `min` to `min`. The two have equal lengths,
/// or one of them a single row, which stands for every row.
pub fn clip_min(s: &Vec<Option<i64>>, min: &Vec<Option<i64>>) -> (r: Result<
    Vec<Option<i64>>,
    ClipError,
>)
    ensures
        r is Ok <==> s@.len() == min@.len() || s@.len() == 1 || min@.len() == 1,
        r is Err ==> r == Err::<Vec<Option<i64>>, ClipError>(
            ClipError::PairLengthMismatch { length: s@.len() as usize, bound_length: min@.len() as usize },
        ),
        r matches Ok(out) ==> out@.len() == (if min@.len() == 1 {
            s@.len()
        } else {
            min@.len()
        }) && forall|i: int|
            0 <= i < out@.len() ==> out@[i] == clip_one_value(at(s@, i), at(min@, i), false),
{
    if !(s.len() == min.len() || s.len() == 1 || min.len() == 1) {
        return Err(ClipError::PairLengthMismatch { length: s.len(), bound_length: min.len() });
    }
    Ok(clip_helper_single_bound(s, min, false))
}

} // verus!
