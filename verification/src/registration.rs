//! Validation of correspondence sets before registration estimates, and the
//! drawing of RANSAC samples from them.

use vstd::prelude::*;
use vstd::string::StringExecFns;
use crate::ply::decimal_bytes;
use crate::random::{
    accepted_at, draw_value, draws_end, keeps_coming, kept_after, Mt19937, UniformIntGenerator,
};

verus! {

/// Why a correspondence set was refused: the position of the first bad
/// correspondence and what is wrong with it.
#[derive(Clone, Copy, PartialEq, Eq, Structural, Debug)]
pub enum CorrespondenceError {
    NegativeSource { position: usize, value: i32 },
    NegativeTarget { position: usize, value: i32 },
    SourceOutOfBounds { position: usize, index: usize, len: usize },
    TargetOutOfBounds { position: usize, index: usize, len: usize },
}

/// What is wrong with the correspondence `c` at `position`, if anything,
/// checked in the order: source sign, target sign, source range, target range.
pub open spec fn correspondence_error(
    c: [i32; 2],
    position: usize,
    source_len: usize,
    target_len: usize,
) -> Option<CorrespondenceError> {
    if c[0] < 0 {
        Some(CorrespondenceError::NegativeSource { position, value: c[0] })
    } else if c[1] < 0 {
        Some(CorrespondenceError::NegativeTarget { position, value: c[1] })
    } else if c[0] >= source_len {
        Some(CorrespondenceError::SourceOutOfBounds { position, index: c[0] as usize, len: source_len })
    } else if c[1] >= target_len {
        Some(CorrespondenceError::TargetOutOfBounds { position, index: c[1] as usize, len: target_len })
    } else {
        None
    }
}

/// Every correspondence before `k` is valid.
pub open spec fn valid_before(corres: Seq<[i32; 2]>, k: int, source_len: usize, target_len: usize) -> bool {
    forall|p: int| 0 <= p < k ==> #[trigger] correspondence_error(corres[p], p as usize, source_len, target_len) is None
}

/// Checks that every correspondence indexes a source point and a target
/// point; reports the first one that does not.
pub fn validate_correspondences(source_len: usize, target_len: usize, corres: &[[i32; 2]]) -> (r: Result<
    (),
    CorrespondenceError,
>)
    ensures
        r is Ok <==> valid_before(corres@, corres@.len() as int, source_len, target_len),
        r matches Err(e) ==> exists|p: int|
            0 <= p < corres@.len() && valid_before(corres@, p, source_len, target_len)
                && #[trigger] correspondence_error(corres@[p], p as usize, source_len, target_len) == Some(e),
{
    let mut position: usize = 0;
    while position < corres.len()
        invariant
            position <= corres@.len(),
            valid_before(corres@, position as int, source_len, target_len),
        decreases corres@.len() - position,
    {
        let c = corres[position];
        proof {
            assert(corres@[position as int] == c);
            if correspondence_error(c, position, source_len, target_len) is Some {
                assert(correspondence_error(corres@[position as int], position as int as usize, source_len, target_len)
                    is Some);
            }
        }
        if c[0] < 0 {
            return Err(CorrespondenceError::NegativeSource { position, value: c[0] });
        }
        if c[1] < 0 {
            return Err(CorrespondenceError::NegativeTarget { position, value: c[1] });
        }
        let source_index = c[0] as usize;
        let target_index = c[1] as usize;
        if source_index >= source_len {
            return Err(CorrespondenceError::SourceOutOfBounds { position, index: source_index, len: source_len });
        }
        if target_index >= target_len {
            return Err(CorrespondenceError::TargetOutOfBounds { position, index: target_index, len: target_len });
        }
        position += 1;
    }
    Ok(())
}

/// The decimal text of `v`: a `-` before the digits of a negative value.
pub open spec fn decimal_text(v: int) -> Seq<char> {
    let digits = |n: nat| decimal_bytes(n).map_values(|b: u8| b as char);
    if v < 0 {
        seq!['-'] + digits((-v) as nat)
    } else {
        digits(v as nat)
    }
}

/// `i128::to_string` (its `Display`): the decimal digits of `v` without
/// leading zeros, after a `-` when it is negative.
#[verifier::external_body]
fn decimal_string(v: i128) -> (s: String)
    ensures
        s@ == decimal_text(v as int),
{
    v.to_string()
}

/// The text of an error message.
pub open spec fn correspondence_message(e: CorrespondenceError) -> Seq<char> {
    match e {
        CorrespondenceError::NegativeSource { position, value } => "correspondence "@ + decimal_text(
            position as int,
        ) + " has negative source index "@ + decimal_text(value as int),
        CorrespondenceError::NegativeTarget { position, value } => "correspondence "@ + decimal_text(
            position as int,
        ) + " has negative target index "@ + decimal_text(value as int),
        CorrespondenceError::SourceOutOfBounds { position, index, len } => "correspondence "@
            + decimal_text(position as int) + " source index "@ + decimal_text(index as int)
            + " is out of bounds for "@ + decimal_text(len as int) + " points"@,
        CorrespondenceError::TargetOutOfBounds { position, index, len } => "correspondence "@
            + decimal_text(position as int) + " target index "@ + decimal_text(index as int)
            + " is out of bounds for "@ + decimal_text(len as int) + " points"@,
    }
}

impl CorrespondenceError {
    /// The message that reports the error.
    pub fn message(&self) -> (m: String)
        ensures
            m@ == correspondence_message(*self),
    {
        let mut m = String::from_str("correspondence ");
        match *self {
            CorrespondenceError::NegativeSource { position, value } => {
                m.append(decimal_string(position as i128).as_str());
                m.append(" has negative source index ");
                m.append(decimal_string(value as i128).as_str());
            },
            CorrespondenceError::NegativeTarget { position, value } => {
                m.append(decimal_string(position as i128).as_str());
                m.append(" has negative target index ");
                m.append(decimal_string(value as i128).as_str());
            },
            CorrespondenceError::SourceOutOfBounds { position, index, len } => {
                m.append(decimal_string(position as i128).as_str());
                m.append(" source index ");
                m.append(decimal_string(index as i128).as_str());
                m.append(" is out of bounds for ");
                m.append(decimal_string(len as i128).as_str());
                m.append(" points");
            },
            CorrespondenceError::TargetOutOfBounds { position, index, len } => {
                m.append(decimal_string(position as i128).as_str());
                m.append(" target index ");
                m.append(decimal_string(index as i128).as_str());
                m.append(" is out of bounds for ");
                m.append(decimal_string(len as i128).as_str());
                m.append(" points");
            },
        }
        m
    }
}

// ------------------------------------------------------------------ sampling

/// The distinct elements of `s`, in the order of their first occurrence.
pub open spec fn first_occurrences<T>(s: Seq<T>) -> Seq<T>
    decreases s.len(),
{
    if s.len() == 0 {
        seq![]
    } else {
        let d = first_occurrences(s.drop_last());
        if d.contains(s.last()) {
            d
        } else {
            d.push(s.last())
        }
    }
}

/// How many candidates sampling looks at: from `t` on, it stops once the
/// candidates so far hold `n` distinct ones, or when `limit` were drawn.
#[verifier::opaque]
pub open spec fn sample_stop<T>(cands: Seq<T>, n: nat, t: nat, limit: nat) -> nat
    decreases limit - t,
{
    if t >= limit || first_occurrences(cands.take(t as int)).len() >= n {
        t
    } else {
        sample_stop(cands, n, t + 1, limit)
    }
}

/// The first `limit` candidates a generator for `range` picks from `corres`,
/// starting at output `start` of the engine seeded with `seed`.
pub open spec fn ransac_candidates(
    corres: Seq<[i32; 2]>,
    seed: u32,
    start: nat,
    range: u32,
    limit: nat,
) -> Seq<[i32; 2]> {
    Seq::new(limit, |i: int| corres[draw_value(seed, start, range, i as nat) as int])
}

proof fn lemma_stop_step<T>(cands: Seq<T>, n: nat, t: nat, limit: nat)
    requires
        t < limit,
        first_occurrences(cands.take(t as int)).len() < n,
    ensures
        sample_stop(cands, n, t, limit) == sample_stop(cands, n, t + 1, limit),
{
    reveal(sample_stop);
}

proof fn lemma_stop_here<T>(cands: Seq<T>, n: nat, t: nat, limit: nat)
    requires
        t >= limit || first_occurrences(cands.take(t as int)).len() >= n,
    ensures
        sample_stop(cands, n, t, limit) == t,
{
    reveal(sample_stop);
}

proof fn lemma_first_occurrences_step<T>(s: Seq<T>, t: int, x: T)
    requires
        0 <= t < s.len(),
        s[t] == x,
    ensures
        first_occurrences(s.take(t + 1)) == (if first_occurrences(s.take(t)).contains(x) {
            first_occurrences(s.take(t))
        } else {
            first_occurrences(s.take(t)).push(x)
        }),
{
    assert(s.take(t + 1).drop_last() =~= s.take(t));
    assert(s.take(t + 1).last() == x);
}

/// `v` holds `c`.
fn holds_pair(v: &Vec<[i32; 2]>, c: [i32; 2]) -> (r: bool)
    ensures
        r == v@.contains(c),
{
    let mut i: usize = 0;
    while i < v.len()
        invariant
            i <= v@.len(),
            forall|j: int| 0 <= j < i ==> v@[j] != c,
        decreases v@.len() - i,
    {
        let x = v[i];
        if x[0] == c[0] && x[1] == c[1] {
            proof {
                assert(x@ =~= c@);
                vstd::array::axiom_array_ext_equal(x, c);
                assert(v@[i as int] == c);
            }
            return true;
        }
        i += 1;
    }
    false
}

/// The next candidate: `corres` at the next draw of `rand_gen`.
#[verifier::rlimit(60)]
fn next_candidate(
    corres: &[[i32; 2]],
    rand_gen: &UniformIntGenerator,
    engine: &mut Mt19937,
    Ghost(d0): Ghost<nat>,
    Ghost(i): Ghost<nat>,
) -> (c: [i32; 2])
    requires
        rand_gen.wf(),
        rand_gen.low_spec() == 0,
        0 < rand_gen.range_spec() <= corres@.len(),
        old(engine).wf(),
        keeps_coming(old(engine).seed_value(), rand_gen.range_spec()),
        old(engine).drawn() == draws_end(old(engine).seed_value(), d0, rand_gen.range_spec(), i),
    ensures
        final(engine).wf(),
        final(engine).seed_value() == old(engine).seed_value(),
        final(engine).drawn() == draws_end(old(engine).seed_value(), d0, rand_gen.range_spec(), i + 1),
        c == corres@[draw_value(old(engine).seed_value(), d0, rand_gen.range_spec(), i) as int],
{
    let ghost seed = engine.seed_value();
    let ghost range = rand_gen.range_spec();
    proof {
        assert(kept_after(seed, engine.drawn(), range));
        let k = choose|k: nat| engine.drawn() <= k && #[trigger] accepted_at(seed, k, range);
        let kk = (k - engine.drawn()) as nat;
        assert(engine.upcoming(kk) == crate::random::mt_output(seed, k));
    }
    let v = rand_gen.next(engine);
    proof {
        assert(draws_end(seed, d0, range, i + 1) == crate::random::next_accepted(
            seed,
            draws_end(seed, d0, range, i),
            range,
        ) + 1);
    }
    corres[v as usize]
}

/// Draws a RANSAC sample: candidates `corres[rand_gen.next()]` until
/// `ransac_n` distinct ones are in hand, giving up after `max_attempts + 1`
/// draws.
pub fn draw_ransac_sample(
    corres: &[[i32; 2]],
    ransac_n: usize,
    max_attempts: usize,
    rand_gen: &UniformIntGenerator,
    engine: &mut Mt19937,
) -> (r: Option<Vec<[i32; 2]>>)
    requires
        rand_gen.wf(),
        rand_gen.low_spec() == 0,
        0 < rand_gen.range_spec() <= corres@.len(),
        old(engine).wf(),
        keeps_coming(old(engine).seed_value(), rand_gen.range_spec()),
        max_attempts < usize::MAX,
    ensures
        final(engine).wf(),
        final(engine).seed_value() == old(engine).seed_value(),
        ({
            let cands = ransac_candidates(
                corres@,
                old(engine).seed_value(),
                old(engine).drawn(),
                rand_gen.range_spec(),
                (max_attempts + 1) as nat,
            );
            let t = sample_stop(cands, ransac_n as nat, 0, (max_attempts + 1) as nat);
            let picked = first_occurrences(cands.take(t as int));
            &&& final(engine).drawn() == draws_end(
                old(engine).seed_value(),
                old(engine).drawn(),
                rand_gen.range_spec(),
                t,
            )
            &&& match r {
                Some(v) => picked.len() >= ransac_n && v@ == picked,
                None => picked.len() < ransac_n,
            }
        }),
{
    let ghost seed = engine.seed_value();
    let ghost d0 = engine.drawn();
    let ghost range = rand_gen.range_spec();
    let ghost limit = (max_attempts + 1) as nat;
    let ghost cands = ransac_candidates(corres@, seed, d0, range, limit);
    let mut sample: Vec<[i32; 2]> = Vec::new();
    let mut attempts: usize = 0;
    proof {
        assert(cands.take(0) =~= Seq::<[i32; 2]>::empty());
    }
    loop
        invariant_except_break
            attempts < limit,
        invariant
            rand_gen.wf(),
            rand_gen.low_spec() == 0,
            range == rand_gen.range_spec(),
            0 < range <= corres@.len(),
            limit == max_attempts + 1,
            cands == ransac_candidates(corres@, seed, d0, range, limit),
            keeps_coming(seed, range),
            engine.wf(),
            engine.seed_value() == seed,
            engine.drawn() == draws_end(seed, d0, range, attempts as nat),
            attempts <= limit,
            max_attempts < usize::MAX,
            sample@ == first_occurrences(cands.take(attempts as int)),
            sample_stop(cands, ransac_n as nat, 0, limit) == sample_stop(
                cands,
                ransac_n as nat,
                attempts as nat,
                limit,
            ),
        ensures
            engine.wf(),
            engine.seed_value() == seed,
            engine.drawn() == draws_end(seed, d0, range, attempts as nat),
            sample@ == first_occurrences(cands.take(attempts as int)),
            sample_stop(cands, ransac_n as nat, 0, limit) == attempts,
        decreases limit - attempts,
    {
        if sample.len() >= ransac_n {
            proof {
                lemma_stop_here(cands, ransac_n as nat, attempts as nat, limit);
            }
            break;
        }
        proof {
            lemma_stop_step(cands, ransac_n as nat, attempts as nat, limit);
        }
        let c = next_candidate(corres, rand_gen, engine, Ghost(d0), Ghost(attempts as nat));
        proof {
            assert(cands[attempts as int] == c);
            lemma_first_occurrences_step(cands, attempts as int, c);
        }
        if !holds_pair(&sample, c) {
            sample.push(c);
        }
        attempts += 1;
        if attempts > max_attempts {
            proof {
                lemma_stop_here(cands, ransac_n as nat, attempts as nat, limit);
            }
            break;
        }
    }
    if sample.len() < ransac_n {
        None
    } else {
        Some(sample)
    }
}

proof fn lemma_push_contains<T>(d: Seq<T>, l: T, x: T)
    ensures
        d.push(l).contains(x) <==> (d.contains(x) || x == l),
{
    if d.contains(x) {
        let i = choose|i: int| 0 <= i < d.len() && d[i] == x;
        assert(d.push(l)[i] == x);
    }
    if x == l {
        assert(d.push(l)[d.len() as int] == x);
    }
    if d.push(l).contains(x) {
        let i = choose|i: int| 0 <= i < d.push(l).len() && d.push(l)[i] == x;
        if i < d.len() {
            assert(d[i] == x);
        }
    }
}

/// The distinct elements of a sequence are distinct, and each is one of its
/// elements: a RANSAC sample never repeats a correspondence.
pub proof fn lemma_first_occurrences_distinct<T>(s: Seq<T>)
    ensures
        first_occurrences(s).no_duplicates(),
        forall|x: T| #[trigger] first_occurrences(s).contains(x) <==> s.contains(x),
    decreases s.len(),
{
    if s.len() > 0 {
        let d = first_occurrences(s.drop_last());
        let l = s.last();
        lemma_first_occurrences_distinct(s.drop_last());
        assert(s =~= s.drop_last().push(l));
        assert forall|x: T| #[trigger] first_occurrences(s).contains(x) <==> s.contains(x) by {
            lemma_push_contains(s.drop_last(), l, x);
            lemma_push_contains(d, l, x);
        }
        if !d.contains(l) {
            assert forall|i: int, j: int| 0 <= i < j < d.push(l).len() implies d.push(l)[i] != d.push(l)[j] by {
                if j == d.len() {
                    assert(d[i] != l);
                }
            }
        }
    }
}

// ------------------------------------------------------------------ feature matches

/// The matches whose target index names one of the `nt` target points.
pub open spec fn valid_matches(cs: Seq<[i32; 2]>, nt: int) -> Seq<[i32; 2]>
    decreases cs.len(),
{
    if cs.len() == 0 {
        seq![]
    } else {
        let c = cs.last();
        if 0 <= c[1] < nt {
            valid_matches(cs.drop_last(), nt).push(c)
        } else {
            valid_matches(cs.drop_last(), nt)
        }
    }
}

/// Among the first `i` sources, the pairs `[s, t]` where the best target of
/// `s` is `t` and the best source of `t` is `s`.
pub open spec fn mutual_matches(fwd: Seq<[i32; 2]>, bwd: Seq<[i32; 2]>, nt: int, i: nat) -> Seq<[i32; 2]>
    decreases i,
{
    if i == 0 {
        seq![]
    } else {
        let prev = mutual_matches(fwd, bwd, nt, (i - 1) as nat);
        let j = fwd[i - 1][1];
        if 0 <= j < nt && bwd[j as int][1] == i - 1 {
            prev.push([(i - 1) as i32, j])
        } else {
            prev
        }
    }
}

/// The correspondences feature matching keeps, given the best target match
/// of each source (`fwd[s] = [s, t]`, `t = -1` for none) and, for the mutual
/// filter, the best source match of each target: without the filter, the
/// matches that name a target; with it, the mutual pairs when there are at
/// least `min_mutual` of them, else the same as without.
pub fn select_correspondences(
    fwd: &[[i32; 2]],
    bwd: &[[i32; 2]],
    num_target: usize,
    mutual_filter: bool,
    min_mutual: i32,
) -> (r: Vec<[i32; 2]>)
    requires
        fwd@.len() <= i32::MAX,
        num_target <= i32::MAX,
        mutual_filter ==> bwd@.len() == num_target,
    ensures
        r@ == (if mutual_filter && mutual_matches(fwd@, bwd@, num_target as int, fwd@.len()).len() >= min_mutual {
            mutual_matches(fwd@, bwd@, num_target as int, fwd@.len())
        } else {
            valid_matches(fwd@, num_target as int)
        }),
{
    if mutual_filter {
        let mut mutual: Vec<[i32; 2]> = Vec::new();
        let mut i: usize = 0;
        while i < fwd.len()
            invariant
                i <= fwd@.len() <= i32::MAX,
                bwd@.len() == num_target <= i32::MAX,
                mutual@ == mutual_matches(fwd@, bwd@, num_target as int, i as nat),
                mutual@.len() <= i,
            decreases fwd@.len() - i,
        {
            let j = fwd[i][1];
            if j >= 0 && (j as usize) < num_target && bwd[j as usize][1] == i as i32 {
                mutual.push([i as i32, j]);
            }
            i += 1;
        }
        if mutual.len() as i64 >= min_mutual as i64 {
            return mutual;
        }
    }
    let mut valid: Vec<[i32; 2]> = Vec::new();
    let mut k: usize = 0;
    while k < fwd.len()
        invariant
            k <= fwd@.len(),
            num_target <= i32::MAX,
            valid@ == valid_matches(fwd@.take(k as int), num_target as int),
        decreases fwd@.len() - k,
    {
        let c = fwd[k];
        proof {
            assert(fwd@.take(k + 1).drop_last() =~= fwd@.take(k as int));
            assert(fwd@.take(k + 1).last() == c);
        }
        if c[1] >= 0 && (c[1] as usize) < num_target {
            valid.push(c);
        }
        k += 1;
    }
    proof {
        assert(fwd@.take(fwd@.len() as int) =~= fwd@);
    }
    valid
}

} // verus!
