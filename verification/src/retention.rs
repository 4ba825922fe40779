//! The retention grid: which snapshots survive thinning.
//!
//! A snapshot's age selects a tier, and each tier keeps one snapshot per
//! fixed-width cell: the newest. Cells are aligned to the Unix epoch, not to
//! the time of planning, so that repeated thinning converges.
//!
//! | age         | keep one per |
//! |-------------|--------------|
//! | below 24 h  | 3 h          |
//! | 24 h to 4 d | 24 h         |
//! | 4 d to 16 d | 4 d          |
//! | from 16 d   | 16 d         |
use std::collections::HashMap;
use vstd::prelude::*;

use crate::span::{Span, SPAN_MAX_NANOS};

verus! {

broadcast use vstd::std_specs::hash::group_hash_axioms;

/// Why tiers do not make a policy.
#[derive(Debug, Clone, Copy, PartialEq, Eq, Structural)]
pub enum RetentionError {
    /// There are none.
    NoTiers,
    /// A tier's cell has no width.
    ZeroCell {
        /// The tier's index.
        index: usize,
    },
    /// A tier ends before the one in front of it.
    Unordered {
        /// The tier's index.
        index: usize,
    },
}

/// One tier: snapshots younger than `max_age` are thinned to one per `cell`.
#[derive(Debug, Clone, Copy, PartialEq, Eq, Structural)]
pub struct Tier {
    /// Upper age bound, exclusive.
    pub max_age: Span,
    /// Width of a cell.
    pub cell: Span,
}

/// A tier's cell width in whole milliseconds, at least one and at most the
/// largest `i64`.
pub open spec fn cell_width(tier: Tier) -> int {
    if tier.cell.millis() < 1 {
        1
    } else if tier.cell.millis() > i64::MAX {
        i64::MAX as int
    } else {
        tier.cell.millis()
    }
}

impl Tier {
    /// A tier for ages below `max_age` that keeps one snapshot per `cell`.
    #[must_use]
    pub fn new(max_age: Span, cell: Span) -> (r: Self)
        ensures
            r == (Tier { max_age, cell }),
    {
        Tier { max_age, cell }
    }

    /// Upper age bound, exclusive.
    #[must_use]
    pub fn max_age(&self) -> (r: Span)
        ensures
            r == self.max_age,
    {
        self.max_age
    }

    /// Width of a cell.
    #[must_use]
    pub fn cell(&self) -> (r: Span)
        ensures
            r == self.cell,
    {
        self.cell
    }

    /// Width of a cell in whole milliseconds, from 1 to the largest `i64`.
    #[must_use]
    pub fn cell_ms(&self) -> (r: i64)
        ensures
            r == cell_width(*self),
            r >= 1,
    {
        let ms: u128 = self.cell.as_millis();
        if ms < 1 {
            1
        } else if ms > i64::MAX as u128 {
            i64::MAX
        } else {
            ms as i64
        }
    }
}

/// A list of tiers.
#[derive(Debug, PartialEq, Eq)]
pub struct RetentionPolicy {
    tiers: Vec<Tier>,
}

impl View for RetentionPolicy {
    type V = Seq<Tier>;

    closed spec fn view(&self) -> Seq<Tier> {
        self.tiers@
    }
}

impl Clone for RetentionPolicy {
    fn clone(&self) -> (r: Self)
        ensures
            r@ == self@,
    {
        proof {
            use_type_invariant(self);
        }
        let tiers: Vec<Tier> = self.tiers.clone();
        proof {
            assert(tiers@ =~= self.tiers@);
        }
        RetentionPolicy { tiers }
    }
}

/// The first thing wrong with tiers, going through them in order.
pub open spec fn tiers_fault(tiers: Seq<Tier>, from: int) -> Option<RetentionError>
    decreases tiers.len() - from,
{
    if from >= tiers.len() {
        None
    } else if tiers[from].cell.nanos == 0 {
        Some(RetentionError::ZeroCell { index: from as usize })
    } else if from > 0 && tiers[from].max_age.nanos < tiers[from - 1].max_age.nanos {
        Some(RetentionError::Unordered { index: from as usize })
    } else {
        tiers_fault(tiers, from + 1)
    }
}

/// Whether tiers make a policy: there is one, no cell is empty, and the age
/// bounds do not fall.
pub open spec fn tiers_valid(tiers: Seq<Tier>) -> bool {
    &&& tiers.len() > 0
    &&& forall|i: int| 0 <= i < tiers.len() ==> (#[trigger] tiers[i]).cell.nanos > 0
    &&& forall|i: int, j: int|
        #![trigger tiers[i], tiers[j]]
        0 <= i <= j < tiers.len() ==> tiers[i].max_age.nanos <= tiers[j].max_age.nanos
}

/// The default grid.
pub open spec fn default_tiers() -> Seq<Tier> {
    seq![
        Tier {
            max_age: Span { nanos: 86_400_000_000_000 },
            cell: Span { nanos: 10_800_000_000_000 },
        },
        Tier {
            max_age: Span { nanos: 345_600_000_000_000 },
            cell: Span { nanos: 86_400_000_000_000 },
        },
        Tier {
            max_age: Span { nanos: 1_382_400_000_000_000 },
            cell: Span { nanos: 345_600_000_000_000 },
        },
        Tier {
            max_age: Span { nanos: SPAN_MAX_NANOS },
            cell: Span { nanos: 1_382_400_000_000_000 },
        },
    ]
}

impl RetentionPolicy {
    /// Every policy holds tiers that make one.
    #[verifier::type_invariant]
    closed spec fn valid(self) -> bool {
        tiers_valid(self.tiers@)
    }

    /// The default grid: cells of 3 h, 24 h, 4 d and 16 d.
    #[must_use]
    pub fn default_grid() -> (r: Self)
        ensures
            r@ == default_tiers(),
            tiers_valid(r@),
    {
        let day: Span = Span::from_secs(86_400);
        let four_days: Span = Span::from_secs(345_600);
        let sixteen_days: Span = Span::from_secs(1_382_400);
        let mut tiers: Vec<Tier> = Vec::new();
        tiers.push(Tier::new(day, Span::from_secs(10_800)));
        tiers.push(Tier::new(four_days, day));
        tiers.push(Tier::new(sixteen_days, four_days));
        tiers.push(Tier::new(Span::max(), sixteen_days));
        proof {
            assert(tiers@ =~= default_tiers());
        }
        RetentionPolicy { tiers }
    }

    /// Makes a policy of tiers, or says what is first wrong with them.
    pub fn from_tiers(tiers: Vec<Tier>) -> (r: Result<Self, RetentionError>)
        ensures
            match r {
                Ok(p) => p@ == tiers@ && tiers_valid(tiers@),
                Err(e) => {
                    &&& !tiers_valid(tiers@)
                    &&& if tiers@.len() == 0 {
                        e == RetentionError::NoTiers
                    } else {
                        tiers_fault(tiers@, 0) == Some(e)
                    }
                },
            },
    {
        if tiers.len() == 0 {
            return Err(RetentionError::NoTiers);
        }
        let mut index: usize = 0;
        while index < tiers.len()
            invariant
                index <= tiers@.len(),
                tiers_fault(tiers@, 0) == tiers_fault(tiers@, index as int),
                forall|i: int| 0 <= i < index ==> (#[trigger] tiers@[i]).cell.nanos > 0,
                forall|i: int, j: int|
                    #![trigger tiers@[i], tiers@[j]]
                    0 <= i <= j < index ==> tiers@[i].max_age.nanos <= tiers@[j].max_age.nanos,
            decreases tiers@.len() - index,
        {
            if tiers[index].cell.is_zero() {
                return Err(RetentionError::ZeroCell { index });
            }
            if index > 0 && tiers[index].max_age.nanos < tiers[index - 1].max_age.nanos {
                proof {
                    let a = tiers@[index - 1];
                    let b = tiers@[index as int];
                    assert(!(a.max_age.nanos <= b.max_age.nanos));
                }
                return Err(RetentionError::Unordered { index });
            }
            proof {
                if index > 0 {
                    assert(tiers@[index - 1].max_age.nanos <= tiers@[index as int].max_age.nanos);
                }
            }
            index = index + 1;
        }
        Ok(RetentionPolicy { tiers })
    }

    /// The tiers, in age order.
    #[must_use]
    pub fn tiers(&self) -> (r: &[Tier])
        ensures
            r@ == self@,
            tiers_valid(r@),
    {
        proof {
            use_type_invariant(self);
        }
        self.tiers.as_slice()
    }

    /// The tier for an age: the first whose bound exceeds it, else the last.
    #[must_use]
    pub fn tier_for(&self, age: Span) -> (r: (usize, Tier))
        ensures
            r.0 == tier_index(self@, age.nanos as int, 0),
            r.0 < self@.len(),
            r.1 == self@[r.0 as int],
    {
        proof {
            use_type_invariant(self);
        }
        let mut index: usize = 0;
        while index < self.tiers.len()
            invariant
                index <= self.tiers@.len(),
                self@ == self.tiers@,
                tier_index(self@, age.nanos as int, 0) == tier_index(
                    self@,
                    age.nanos as int,
                    index as int,
                ),
            decreases self.tiers@.len() - index,
        {
            if age.nanos < self.tiers[index].max_age.nanos {
                return (index, self.tiers[index]);
            }
            index = index + 1;
        }
        let last: usize = self.tiers.len() - 1;
        (last, self.tiers[last])
    }
}

/// The index of the first tier from `from` on whose bound exceeds the age,
/// else of the last tier.
pub open spec fn tier_index(tiers: Seq<Tier>, age_nanos: int, from: int) -> int
    decreases tiers.len() - from,
{
    if from >= tiers.len() {
        tiers.len() - 1
    } else if age_nanos < tiers[from].max_age.nanos {
        from
    } else {
        tier_index(tiers, age_nanos, from + 1)
    }
}

proof fn lemma_tier_index(tiers: Seq<Tier>, age_nanos: int, from: int)
    requires
        0 <= from <= tiers.len(),
        tiers.len() > 0,
    ensures
        0 <= tier_index(tiers, age_nanos, from) < tiers.len(),
    decreases tiers.len() - from,
{
    if from < tiers.len() && !(age_nanos < tiers[from].max_age.nanos) {
        lemma_tier_index(tiers, age_nanos, from + 1);
    }
}

/// A snapshot's age in milliseconds: none for one dated in the future, at
/// most the largest `i64`.
pub open spec fn age_ms(now: int, time: int) -> int {
    if now - time < 0 {
        0
    } else if now - time > i64::MAX {
        i64::MAX as int
    } else {
        now - time
    }
}

/// The grid cell of a snapshot: its tier, and the cell of that tier counted
/// from the Unix epoch.
pub open spec fn grid_cell(now: int, time: int, tiers: Seq<Tier>) -> (int, int) {
    let tier = tier_index(tiers, age_ms(now, time) * 1_000_000, 0);
    (tier, time / cell_width(tiers[tier]))
}

/// The cell that snapshot `i` is in.
pub open spec fn cell_at<T>(now: int, snapshots: Seq<(i64, T)>, tiers: Seq<Tier>, i: int) -> (
    int,
    int,
) {
    grid_cell(now, snapshots[i].0 as int, tiers)
}

/// Whether snapshot `j` is newer than snapshot `i`; of two at one time, the
/// later in the list counts as newer.
pub open spec fn newer<T>(snapshots: Seq<(i64, T)>, j: int, i: int) -> bool {
    snapshots[j].0 > snapshots[i].0 || (snapshots[j].0 == snapshots[i].0 && j > i)
}

/// Whether snapshot `i` survives: no snapshot in its cell is newer.
pub open spec fn survives<T>(
    now: int,
    snapshots: Seq<(i64, T)>,
    tiers: Seq<Tier>,
    i: int,
) -> bool {
    tiers.len() == 0 || forall|j: int|
        #![trigger snapshots[j]]
        0 <= j < snapshots.len() && cell_at(now, snapshots, tiers, j) == cell_at(
            now,
            snapshots,
            tiers,
            i,
        ) ==> !newer(snapshots, j, i)
}

/// The snapshots among the first `n` that survive, or that do not, in order.
pub open spec fn sifted<T>(
    now: int,
    snapshots: Seq<(i64, T)>,
    tiers: Seq<Tier>,
    keep: bool,
    n: int,
) -> Seq<(i64, T)>
    decreases n,
{
    if n <= 0 {
        Seq::empty()
    } else if survives(now, snapshots, tiers, n - 1) == keep {
        sifted(now, snapshots, tiers, keep, n - 1).push(snapshots[n - 1])
    } else {
        sifted(now, snapshots, tiers, keep, n - 1)
    }
}

/// The identities of snapshots.
pub open spec fn ids_of<T>(snapshots: Seq<(i64, T)>) -> Seq<T> {
    Seq::new(snapshots.len(), |i: int| snapshots[i].1)
}

/// The survivors, in order.
pub open spec fn kept<T>(now: int, snapshots: Seq<(i64, T)>, tiers: Seq<Tier>) -> Seq<(i64, T)> {
    sifted(now, snapshots, tiers, true, snapshots.len() as int)
}

/// The others, in order.
pub open spec fn dropped<T>(now: int, snapshots: Seq<(i64, T)>, tiers: Seq<Tier>) -> Seq<
    (i64, T),
> {
    sifted(now, snapshots, tiers, false, snapshots.len() as int)
}

/// Which snapshots stay and which go, each in the order of the input.
#[derive(Debug, Clone, PartialEq, Eq)]
pub struct Plan<T> {
    /// The survivors: the newest in each occupied cell.
    pub keep: Vec<T>,
    /// The others.
    pub drop: Vec<T>,
}

spec fn cell_key(cell: (int, int)) -> int {
    cell.0 * 0x1_0000_0000_0000_0000 + (cell.1 + 0x8000_0000_0000_0000)
}

spec fn key_at<T>(now: int, snapshots: Seq<(i64, T)>, tiers: Seq<Tier>, i: int) -> int {
    cell_key(cell_at(now, snapshots, tiers, i))
}

proof fn lemma_cell_key(a: (int, int), b: (int, int))
    requires
        0 <= a.0,
        0 <= b.0,
        i64::MIN <= a.1 <= i64::MAX,
        i64::MIN <= b.1 <= i64::MAX,
        cell_key(a) == cell_key(b),
    ensures
        a == b,
{
}

proof fn lemma_grid_cell_bounds(now: int, time: i64, tiers: Seq<Tier>)
    requires
        tiers.len() > 0,
    ensures
        0 <= grid_cell(now, time as int, tiers).0 < tiers.len(),
        i64::MIN <= grid_cell(now, time as int, tiers).1 <= i64::MAX,
{
    lemma_tier_index(tiers, age_ms(now, time as int) * 1_000_000, 0);
    let c = grid_cell(now, time as int, tiers);
    let w = cell_width(tiers[c.0]);
    let t = time as int;
    assert(w >= 1);
    assert(t >= 0 ==> 0 <= t / w <= t) by (nonlinear_arith)
        requires
            w >= 1,
    ;
    assert(t < 0 ==> t <= t / w <= 0) by (nonlinear_arith)
        requires
            w >= 1,
    ;
}

fn key_of(now_ms: i64, time_ms: i64, policy: &RetentionPolicy) -> (r: u128)
    ensures
        r == cell_key(grid_cell(now_ms as int, time_ms as int, policy@)),
{
    let age: i64 = if time_ms >= now_ms {
        0
    } else {
        match now_ms.checked_sub(time_ms) {
            Some(d) => d,
            None => i64::MAX,
        }
    };
    let span: Span = Span::from_millis(age as u64);
    let (index, tier) = policy.tier_for(span);
    proof {
        use_type_invariant(policy);
    }
    let width: i64 = tier.cell_ms();
    proof {
        lemma_grid_cell_bounds(now_ms as int, time_ms, policy@);
        assert(policy@.len() == policy.tiers@.len());
    }
    let cell: i64 = match time_ms.checked_div_euclid(width) {
        Some(c) => c,
        None => 0,
    };
    let offset: u128 = (cell as i128 + 0x8000_0000_0000_0000) as u128;
    (index as u128) * 0x1_0000_0000_0000_0000 + offset
}

/// Plans the thinning of snapshots, each given by its time in milliseconds
/// since the Unix epoch and an identity.
///
/// Within each cell the newest survives; of several at one time the last in
/// the list. A snapshot dated after `now_ms` has no age. Without tiers
/// everything stays.
#[must_use]
pub fn plan<T: Copy>(now_ms: i64, snapshots: &[(i64, T)], policy: &RetentionPolicy) -> (r: Plan<T>)
    ensures
        r.keep@ == ids_of(kept(now_ms as int, snapshots@, policy@)),
        r.drop@ == ids_of(dropped(now_ms as int, snapshots@, policy@)),
{
    let n: usize = snapshots.len();
    let ghost s = snapshots@;
    let ghost tiers = policy@;
    let ghost now = now_ms as int;
    let mut keys: Vec<u128> = Vec::new();
    let mut best: HashMap<u128, usize> = HashMap::new();
    let empty: bool = policy.tiers.len() == 0;
    if !empty {
        let mut i: usize = 0;
        while i < n
            invariant
                i <= n,
                n == s.len(),
                s == snapshots@,
                tiers == policy@,
                now == now_ms,
                tiers.len() > 0,
                keys@.len() == i,
                forall|k: int| 0 <= k < i ==> #[trigger] keys@[k] == key_at(now, s, tiers, k),
                forall|k: int| 0 <= k < i ==> best@.contains_key(#[trigger] keys@[k]),
                forall|key: u128| #[trigger]
                    best@.contains_key(key) ==> best@[key] < i && keys@[best@[key] as int] == key,
                forall|key: u128, k: int|
                    #![trigger best@.contains_key(key), keys@[k]]
                    best@.contains_key(key) && 0 <= k < i && keys@[k] == key ==> !newer(
                        s,
                        k,
                        best@[key] as int,
                    ),
            decreases n - i,
        {
            let time: i64 = snapshots[i].0;
            let key: u128 = key_of(now_ms, time, policy);
            keys.push(key);
            let wins: bool = match best.get(&key) {
                Some(j) => snapshots[*j].0 <= time,
                None => true,
            };
            if wins {
                best.insert(key, i);
            }
            i = i + 1;
        }
    }
    let mut keep: Vec<T> = Vec::new();
    let mut drop: Vec<T> = Vec::new();
    let mut i: usize = 0;
    proof {
        assert(keep@ =~= ids_of(sifted(now, s, tiers, true, 0)));
        assert(drop@ =~= ids_of(sifted(now, s, tiers, false, 0)));
    }
    while i < n
        invariant
            i <= n,
            n == s.len(),
            s == snapshots@,
            tiers == policy@,
            empty == (tiers.len() == 0),
            !empty ==> {
                &&& keys@.len() == n
                &&& forall|k: int| 0 <= k < n ==> #[trigger] keys@[k] == key_at(now, s, tiers, k)
                &&& forall|k: int| 0 <= k < n ==> best@.contains_key(#[trigger] keys@[k])
                &&& forall|key: u128| #[trigger]
                    best@.contains_key(key) ==> best@[key] < n && keys@[best@[key] as int] == key
                &&& forall|key: u128, k: int|
                    #![trigger best@.contains_key(key), keys@[k]]
                    best@.contains_key(key) && 0 <= k < n && keys@[k] == key ==> !newer(
                        s,
                        k,
                        best@[key] as int,
                    )
            },
            keep@ == ids_of(sifted(now, s, tiers, true, i as int)),
            drop@ == ids_of(sifted(now, s, tiers, false, i as int)),
        decreases n - i,
    {
        let stays: bool = if empty {
            true
        } else {
            match best.get(&keys[i]) {
                Some(j) => *j == i,
                None => false,
            }
        };
        proof {
            if !empty {
                let key = keys@[i as int];
                let j = best@[key] as int;
                assert(best@.contains_key(key));
                assert(keys@[j] == key);
                lemma_grid_cell_bounds(now, s[i as int].0, tiers);
                lemma_grid_cell_bounds(now, s[j].0, tiers);
                lemma_cell_key(
                    cell_at(now, s, tiers, i as int),
                    cell_at(now, s, tiers, j),
                );
                if j == i {
                    assert forall|k: int|
                        #![trigger s[k]]
                        0 <= k < s.len() && cell_at(now, s, tiers, k) == cell_at(
                            now,
                            s,
                            tiers,
                            i as int,
                        ) implies !newer(s, k, i as int) by {
                        assert(keys@[k] == key_at(now, s, tiers, k));
                    }
                } else {
                    assert(!newer(s, i as int, j));
                    assert(newer(s, j, i as int));
                    assert(!survives(now, s, tiers, i as int)) by {
                        let w = s[j];
                    }
                }
            }
            assert(stays == survives(now, s, tiers, i as int));
        }
        let id: T = snapshots[i].1;
        if stays {
            keep.push(id);
        } else {
            drop.push(id);
        }
        i = i + 1;
        proof {
            assert(keep@ =~= ids_of(sifted(now, s, tiers, true, i as int)));
            assert(drop@ =~= ids_of(sifted(now, s, tiers, false, i as int)));
        }
    }
    Plan { keep, drop }
}

/// The index in the input of the `p`-th sifted snapshot.
spec fn source<T>(
    now: int,
    s: Seq<(i64, T)>,
    tiers: Seq<Tier>,
    keep: bool,
    n: int,
    p: int,
) -> int
    decreases n,
{
    if n <= 0 {
        0
    } else if survives(now, s, tiers, n - 1) == keep && p == sifted(
        now,
        s,
        tiers,
        keep,
        n - 1,
    ).len() {
        n - 1
    } else {
        source(now, s, tiers, keep, n - 1, p)
    }
}

proof fn lemma_source<T>(
    now: int,
    s: Seq<(i64, T)>,
    tiers: Seq<Tier>,
    keep: bool,
    n: int,
    p: int,
)
    requires
        0 <= n <= s.len(),
        0 <= p < sifted(now, s, tiers, keep, n).len(),
    ensures
        0 <= source(now, s, tiers, keep, n, p) < n,
        s[source(now, s, tiers, keep, n, p)] == sifted(now, s, tiers, keep, n)[p],
        survives(now, s, tiers, source(now, s, tiers, keep, n, p)) == keep,
    decreases n,
{
    let shorter = sifted(now, s, tiers, keep, n - 1);
    if p < shorter.len() {
        lemma_source(now, s, tiers, keep, n - 1, p);
    }
}

proof fn lemma_source_rises<T>(
    now: int,
    s: Seq<(i64, T)>,
    tiers: Seq<Tier>,
    keep: bool,
    n: int,
    p: int,
    q: int,
)
    requires
        0 <= n <= s.len(),
        0 <= p < q < sifted(now, s, tiers, keep, n).len(),
    ensures
        source(now, s, tiers, keep, n, p) < source(now, s, tiers, keep, n, q),
    decreases n,
{
    let shorter = sifted(now, s, tiers, keep, n - 1);
    if q < shorter.len() {
        lemma_source_rises(now, s, tiers, keep, n - 1, p, q);
    } else {
        lemma_source(now, s, tiers, keep, n - 1, p);
    }
}

/// Of the first `n` snapshots in the cell of snapshot `i`, none is newer than
/// the one that this gives.
proof fn newest_in_cell<T>(
    now: int,
    s: Seq<(i64, T)>,
    tiers: Seq<Tier>,
    i: int,
    n: int,
) -> (best: int)
    requires
        0 <= i < n <= s.len(),
    ensures
        0 <= best < n,
        cell_at(now, s, tiers, best) == cell_at(now, s, tiers, i),
        best == i || newer(s, best, i),
        forall|j: int|
            #![trigger s[j]]
            0 <= j < n && cell_at(now, s, tiers, j) == cell_at(now, s, tiers, i) ==> !newer(
                s,
                j,
                best,
            ),
    decreases n,
{
    if i == n - 1 {
        newest_from(now, s, tiers, i, n - 1, i)
    } else {
        let b = newest_in_cell(now, s, tiers, i, n - 1);
        if cell_at(now, s, tiers, n - 1) == cell_at(now, s, tiers, i) && newer(s, n - 1, b) {
            n - 1
        } else {
            b
        }
    }
}

/// As `newest_in_cell`, over the first `n` and one more candidate.
proof fn newest_from<T>(
    now: int,
    s: Seq<(i64, T)>,
    tiers: Seq<Tier>,
    i: int,
    n: int,
    start: int,
) -> (best: int)
    requires
        0 <= n <= start < s.len(),
        start == i,
    ensures
        0 <= best <= start,
        best == start || best < n,
        cell_at(now, s, tiers, best) == cell_at(now, s, tiers, i),
        best == i || newer(s, best, i),
        !newer(s, start, best),
        forall|j: int|
            #![trigger s[j]]
            0 <= j < n && cell_at(now, s, tiers, j) == cell_at(now, s, tiers, i) ==> !newer(
                s,
                j,
                best,
            ),
    decreases n,
{
    if n == 0 {
        start
    } else {
        let b = newest_from(now, s, tiers, i, n - 1, start);
        if cell_at(now, s, tiers, n - 1) == cell_at(now, s, tiers, i) && newer(s, n - 1, b) {
            n - 1
        } else {
            b
        }
    }
}

/// Every snapshot either stays or goes: those that stay and those that go
/// are together exactly the snapshots that there were.
pub proof fn law_plan_partitions<T>(now: int, snapshots: Seq<(i64, T)>, tiers: Seq<Tier>)
    ensures
        kept(now, snapshots, tiers).len() + dropped(now, snapshots, tiers).len() == snapshots.len(),
        kept(now, snapshots, tiers).to_multiset().add(
            dropped(now, snapshots, tiers).to_multiset(),
        ) == snapshots.to_multiset(),
{
    let n = snapshots.len() as int;
    lemma_sifted_multiset(now, snapshots, tiers, n);
    assert(snapshots.take(n) =~= snapshots);
}

proof fn lemma_sifted_multiset<T>(now: int, s: Seq<(i64, T)>, tiers: Seq<Tier>, n: int)
    requires
        0 <= n <= s.len(),
    ensures
        sifted(now, s, tiers, true, n).len() + sifted(now, s, tiers, false, n).len() == n,
        sifted(now, s, tiers, true, n).to_multiset().add(
            sifted(now, s, tiers, false, n).to_multiset(),
        ) =~= s.take(n).to_multiset(),
    decreases n,
{
    broadcast use vstd::seq_lib::group_to_multiset_ensures;

    if n > 0 {
        lemma_sifted_multiset(now, s, tiers, n - 1);
        assert(s.take(n) =~= s.take(n - 1).push(s[n - 1]));
        let a = sifted(now, s, tiers, true, n - 1);
        let b = sifted(now, s, tiers, false, n - 1);
        assert(a.push(s[n - 1]).to_multiset() =~= a.to_multiset().insert(s[n - 1]));
        assert(b.push(s[n - 1]).to_multiset() =~= b.to_multiset().insert(s[n - 1]));
    } else {
        assert(s.take(0) =~= Seq::<(i64, T)>::empty());
        assert(Seq::<(i64, T)>::empty().to_multiset().add(Seq::<(i64, T)>::empty().to_multiset())
            =~= Seq::<(i64, T)>::empty().to_multiset());
    }
}

/// Every occupied cell has exactly one survivor.
pub proof fn law_one_survivor_per_cell<T>(
    now: int,
    snapshots: Seq<(i64, T)>,
    tiers: Seq<Tier>,
    i: int,
)
    requires
        tiers.len() > 0,
        0 <= i < snapshots.len(),
    ensures
        exists|j: int|
            #![trigger snapshots[j]]
            0 <= j < snapshots.len() && cell_at(now, snapshots, tiers, j) == cell_at(
                now,
                snapshots,
                tiers,
                i,
            ) && survives(now, snapshots, tiers, j),
        forall|j: int, k: int|
            #![trigger snapshots[j], snapshots[k]]
            0 <= j < snapshots.len() && 0 <= k < snapshots.len() && survives(
                now,
                snapshots,
                tiers,
                j,
            ) && survives(now, snapshots, tiers, k) && cell_at(now, snapshots, tiers, j) == cell_at(
                now,
                snapshots,
                tiers,
                k,
            ) ==> j == k,
{
    let b = newest_in_cell(now, snapshots, tiers, i, snapshots.len() as int);
    assert(survives(now, snapshots, tiers, b));
    let w = snapshots[b];
}

/// A snapshot that goes yields to a newer survivor in its own cell.
pub proof fn law_dropped_yields_to_newer<T>(
    now: int,
    snapshots: Seq<(i64, T)>,
    tiers: Seq<Tier>,
    i: int,
)
    requires
        0 <= i < snapshots.len(),
        !survives(now, snapshots, tiers, i),
    ensures
        exists|j: int|
            #![trigger snapshots[j]]
            0 <= j < snapshots.len() && newer(snapshots, j, i) && cell_at(
                now,
                snapshots,
                tiers,
                j,
            ) == cell_at(now, snapshots, tiers, i) && survives(now, snapshots, tiers, j),
{
    let b = newest_in_cell(now, snapshots, tiers, i, snapshots.len() as int);
    assert(survives(now, snapshots, tiers, b));
    let w = snapshots[b];
}

/// Planning the survivors again at the same time keeps them all.
pub proof fn law_plan_is_idempotent<T>(now: int, snapshots: Seq<(i64, T)>, tiers: Seq<Tier>)
    ensures
        ({
            let once = kept(now, snapshots, tiers);
            &&& kept(now, once, tiers) == once
            &&& dropped(now, once, tiers) == Seq::<(i64, T)>::empty()
        }),
{
    let s = snapshots;
    let n = s.len() as int;
    let once = kept(now, s, tiers);
    assert forall|p: int| 0 <= p < once.len() implies survives(now, once, tiers, p) by {
        assert forall|q: int|
            #![trigger once[q]]
            0 <= q < once.len() && cell_at(now, once, tiers, q) == cell_at(
                now,
                once,
                tiers,
                p,
            ) && tiers.len() > 0 implies !newer(once, q, p) by {
            lemma_source(now, s, tiers, true, n, p);
            lemma_source(now, s, tiers, true, n, q);
            let a = source(now, s, tiers, true, n, p);
            let b = source(now, s, tiers, true, n, q);
            assert(cell_at(now, s, tiers, a) == cell_at(now, s, tiers, b));
            assert(s[a] == once[p] && s[b] == once[q]);
            assert(!newer(s, b, a));
            assert(!newer(s, a, b));
            assert(a == b);
            if p < q {
                lemma_source_rises(now, s, tiers, true, n, p, q);
            } else if q < p {
                lemma_source_rises(now, s, tiers, true, n, q, p);
            }
        }
    }
    lemma_all_survive(now, once, tiers, once.len() as int);
    assert(once.take(once.len() as int) =~= once);
}

proof fn lemma_all_survive<T>(now: int, s: Seq<(i64, T)>, tiers: Seq<Tier>, n: int)
    requires
        0 <= n <= s.len(),
        forall|p: int| 0 <= p < s.len() ==> survives(now, s, tiers, p),
    ensures
        sifted(now, s, tiers, true, n) == s.take(n),
        sifted(now, s, tiers, false, n) == Seq::<(i64, T)>::empty(),
    decreases n,
{
    if n > 0 {
        lemma_all_survive(now, s, tiers, n - 1);
        assert(s.take(n - 1).push(s[n - 1]) =~= s.take(n));
    } else {
        assert(s.take(0) =~= Seq::<(i64, T)>::empty());
    }
}

/// Cells do not move with the time of planning: as long as a snapshot stays
/// in one tier it stays in one cell.
pub proof fn law_cells_are_epoch_aligned(now: int, later: int, time: int, tiers: Seq<Tier>)
    requires
        grid_cell(now, time, tiers).0 == grid_cell(later, time, tiers).0,
    ensures
        grid_cell(now, time, tiers) == grid_cell(later, time, tiers),
{
}

/// A snapshot dated after the time of planning counts as newly made.
pub proof fn law_future_is_young(now: int, time: int, tiers: Seq<Tier>)
    requires
        time >= now,
        tiers.len() > 0,
        tiers[0].max_age.nanos > 0,
    ensures
        age_ms(now, time) == 0,
        grid_cell(now, time, tiers).0 == 0,
{
}

/// The tier of an age is the first whose bound is above it; only the last tier
/// also takes what is at or above every bound.
pub proof fn law_tier_of_an_age(tiers: Seq<Tier>, age_nanos: int)
    requires
        tiers.len() > 0,
    ensures
        ({
            let t = tier_index(tiers, age_nanos, 0);
            &&& 0 <= t < tiers.len()
            &&& t < tiers.len() - 1 ==> age_nanos < tiers[t].max_age.nanos
            &&& forall|k: int|
                #![trigger tiers[k]]
                0 <= k < t ==> tiers[k].max_age.nanos <= age_nanos
        }),
{
    lemma_tier_of_an_age(tiers, age_nanos, 0);
}

proof fn lemma_tier_of_an_age(tiers: Seq<Tier>, age_nanos: int, from: int)
    requires
        tiers.len() > 0,
        0 <= from <= tiers.len(),
    ensures
        ({
            let t = tier_index(tiers, age_nanos, from);
            &&& t >= from || t == tiers.len() - 1
            &&& 0 <= t < tiers.len()
            &&& t < tiers.len() - 1 ==> age_nanos < tiers[t].max_age.nanos
            &&& forall|k: int|
                #![trigger tiers[k]]
                from <= k < t ==> tiers[k].max_age.nanos <= age_nanos
        }),
    decreases tiers.len() - from,
{
    if from < tiers.len() && !(age_nanos < tiers[from].max_age.nanos) {
        lemma_tier_of_an_age(tiers, age_nanos, from + 1);
    }
}

/// A snapshot's age is the time that has passed since it was made.
pub proof fn law_age_is_the_time_passed(now: int, time: int)
    requires
        time <= now <= time + i64::MAX,
    ensures
        age_ms(now, time) == now - time,
{
}

/// A cell of a tier is so many whole milliseconds of time, counted from the
/// epoch: a snapshot's time falls into its cell.
pub proof fn law_time_falls_into_its_cell(now: int, time: int, tiers: Seq<Tier>)
    requires
        tiers.len() > 0,
    ensures
        ({
            let (tier, cell) = grid_cell(now, time, tiers);
            let width = cell_width(tiers[tier]);
            &&& tier == tier_index(tiers, age_ms(now, time) * 1_000_000, 0)
            &&& width >= 1
            &&& cell * width <= time < (cell + 1) * width
        }),
{
    let (tier, cell) = grid_cell(now, time, tiers);
    let width = cell_width(tiers[tier]);
    vstd::arithmetic::div_mod::lemma_fundamental_div_mod(time, width);
    assert(0 <= time % width < width) by (nonlinear_arith)
        requires
            width >= 1,
    ;
    assert(width * cell == cell * width) by (nonlinear_arith);
    assert((cell + 1) * width == cell * width + width) by (nonlinear_arith);
}

/// A cell is as wide as its tier says, in whole milliseconds: at least one, and
/// at most the largest number.
pub proof fn law_cells_are_as_wide_as_said(tier: Tier)
    ensures
        tier.cell.nanos < 1_000_000 ==> cell_width(tier) == 1,
        1_000_000 <= tier.cell.nanos && tier.cell.nanos <= i64::MAX * 1_000_000 ==> cell_width(tier)
            * 1_000_000 <= tier.cell.nanos < (cell_width(tier) + 1) * 1_000_000,
        tier.cell.nanos > i64::MAX * 1_000_000 ==> cell_width(tier) == i64::MAX,
{
}

/// The default grid: cells of three hours for a day, of a day up to the fourth,
/// of four days up to the sixteenth, and of sixteen days from there on.
pub proof fn law_default_grid()
    ensures
        ({
            let t = default_tiers();
            let hour = 3600 * 1_000_000_000int;
            &&& t.len() == 4
            &&& t[0].max_age.nanos == 24 * hour && t[0].cell.nanos == 3 * hour
            &&& t[1].max_age.nanos == 4 * 24 * hour && t[1].cell.nanos == 24 * hour
            &&& t[2].max_age.nanos == 16 * 24 * hour && t[2].cell.nanos == 4 * 24 * hour
            &&& t[3].max_age.nanos == SPAN_MAX_NANOS && t[3].cell.nanos == 16 * 24 * hour
            &&& tiers_valid(t)
        }),
{
    let t = default_tiers();
    assert(t[0].cell.nanos > 0 && t[1].cell.nanos > 0 && t[2].cell.nanos > 0 && t[3].cell.nanos
        > 0);
}

/// A survivor is the latest in its cell: none there has a later time, and those
/// with the same time stand before it in the list.
pub proof fn law_survivor_is_the_latest<T>(
    now: int,
    snapshots: Seq<(i64, T)>,
    tiers: Seq<Tier>,
    i: int,
    j: int,
)
    requires
        tiers.len() > 0,
        0 <= i < snapshots.len(),
        0 <= j < snapshots.len(),
        survives(now, snapshots, tiers, i),
        grid_cell(now, snapshots[i].0 as int, tiers) == grid_cell(
            now,
            snapshots[j].0 as int,
            tiers,
        ),
    ensures
        snapshots[j].0 <= snapshots[i].0,
        snapshots[j].0 == snapshots[i].0 ==> j <= i,
{
    let w = snapshots[j];
    assert(!newer(snapshots, j, i));
}

/// The latest snapshot of all survives, whatever the tiers.
pub proof fn law_latest_survives<T>(
    now: int,
    snapshots: Seq<(i64, T)>,
    tiers: Seq<Tier>,
    i: int,
)
    requires
        0 <= i < snapshots.len(),
        forall|j: int|
            #![trigger snapshots[j]]
            0 <= j < snapshots.len() ==> snapshots[j].0 < snapshots[i].0 || (snapshots[j].0
                == snapshots[i].0 && j <= i),
    ensures
        survives(now, snapshots, tiers, i),
        kept(now, snapshots, tiers).contains(snapshots[i]),
{
    assert forall|j: int|
        #![trigger snapshots[j]]
        0 <= j < snapshots.len() && cell_at(now, snapshots, tiers, j) == cell_at(
            now,
            snapshots,
            tiers,
            i,
        ) implies !newer(snapshots, j, i) by {
    }
    law_plan_goes_by_survival(now, snapshots, tiers, i);
}

/// Every survivor is kept and every other snapshot is dropped.
pub proof fn law_plan_goes_by_survival<T>(
    now: int,
    snapshots: Seq<(i64, T)>,
    tiers: Seq<Tier>,
    i: int,
)
    requires
        0 <= i < snapshots.len(),
    ensures
        survives(now, snapshots, tiers, i) ==> kept(now, snapshots, tiers).contains(snapshots[i]),
        !survives(now, snapshots, tiers, i) ==> dropped(now, snapshots, tiers).contains(
            snapshots[i],
        ),
{
    let n = snapshots.len() as int;
    lemma_sifted_holds(now, snapshots, tiers, survives(now, snapshots, tiers, i), n, i);
}

/// Of two snapshots that are kept, both are survivors of the input, and they
/// stand in its order.
pub proof fn law_kept_in_the_order_of_the_input<T>(
    now: int,
    snapshots: Seq<(i64, T)>,
    tiers: Seq<Tier>,
    p: int,
    q: int,
) -> (at: (int, int))
    requires
        0 <= p < q < kept(now, snapshots, tiers).len(),
    ensures
        0 <= at.0 < at.1 < snapshots.len(),
        survives(now, snapshots, tiers, at.0),
        survives(now, snapshots, tiers, at.1),
        kept(now, snapshots, tiers)[p] == snapshots[at.0],
        kept(now, snapshots, tiers)[q] == snapshots[at.1],
{
    let n = snapshots.len() as int;
    lemma_source(now, snapshots, tiers, true, n, p);
    lemma_source(now, snapshots, tiers, true, n, q);
    lemma_source_rises(now, snapshots, tiers, true, n, p, q);
    (source(now, snapshots, tiers, true, n, p), source(now, snapshots, tiers, true, n, q))
}

proof fn lemma_sifted_holds<T>(
    now: int,
    s: Seq<(i64, T)>,
    tiers: Seq<Tier>,
    keep: bool,
    n: int,
    i: int,
)
    requires
        0 <= i < n <= s.len(),
        survives(now, s, tiers, i) == keep,
    ensures
        sifted(now, s, tiers, keep, n).contains(s[i]),
    decreases n,
{
    let list = sifted(now, s, tiers, keep, n);
    if i == n - 1 {
        assert(list[list.len() - 1] == s[i]);
    } else {
        lemma_sifted_holds(now, s, tiers, keep, n - 1, i);
        let before = sifted(now, s, tiers, keep, n - 1);
        let k = choose|k: int| 0 <= k < before.len() && before[k] == s[i];
        assert(list[k] == s[i]);
    }
}

/// What is reported of tiers is the first thing wrong with them, and nothing is
/// where they make a policy.
pub proof fn law_first_fault_of_tiers(tiers: Seq<Tier>)
    requires
        0 < tiers.len() <= usize::MAX,
    ensures
        match tiers_fault(tiers, 0) {
            None => tiers_valid(tiers),
            Some(RetentionError::ZeroCell { index }) => index < tiers.len()
                && tiers[index as int].cell.nanos == 0 && faultless(tiers, 0, index as int),
            Some(RetentionError::Unordered { index }) => 0 < index < tiers.len()
                && tiers[index as int].max_age.nanos < tiers[index - 1].max_age.nanos
                && tiers[index as int].cell.nanos > 0 && faultless(tiers, 0, index as int),
            Some(RetentionError::NoTiers) => false,
        },
{
    lemma_first_fault(tiers, 0);
    if tiers_fault(tiers, 0) is None {
        assert forall|i: int, j: int|
            #![trigger tiers[i], tiers[j]]
            0 <= i <= j < tiers.len() implies tiers[i].max_age.nanos <= tiers[j].max_age.nanos by {
            lemma_bounds_rise(tiers, i, j);
        }
    }
}

/// Whether nothing is wrong with the tiers from one place to another.
pub open spec fn faultless(tiers: Seq<Tier>, from: int, to: int) -> bool {
    forall|k: int|
        #![trigger tiers[k]]
        from <= k < to ==> tiers[k].cell.nanos > 0 && (k > 0 ==> tiers[k - 1].max_age.nanos
            <= tiers[k].max_age.nanos)
}

proof fn lemma_bounds_rise(tiers: Seq<Tier>, i: int, j: int)
    requires
        0 <= i <= j < tiers.len(),
        forall|k: int|
            #![trigger tiers[k]]
            0 < k < tiers.len() ==> tiers[k - 1].max_age.nanos <= tiers[k].max_age.nanos,
    ensures
        tiers[i].max_age.nanos <= tiers[j].max_age.nanos,
    decreases j - i,
{
    if i < j {
        lemma_bounds_rise(tiers, i, j - 1);
        let w = tiers[j];
    }
}

proof fn lemma_first_fault(tiers: Seq<Tier>, from: int)
    requires
        0 <= from <= tiers.len() <= usize::MAX,
    ensures
        match tiers_fault(tiers, from) {
            None => faultless(tiers, from, tiers.len() as int),
            Some(RetentionError::ZeroCell { index }) => from <= index < tiers.len()
                && tiers[index as int].cell.nanos == 0 && faultless(tiers, from, index as int),
            Some(RetentionError::Unordered { index }) => 0 < index && from <= index < tiers.len()
                && tiers[index as int].max_age.nanos < tiers[index - 1].max_age.nanos
                && tiers[index as int].cell.nanos > 0 && faultless(tiers, from, index as int),
            Some(RetentionError::NoTiers) => false,
        },
    decreases tiers.len() - from,
{
    if from < tiers.len() {
        lemma_first_fault(tiers, from + 1);
    }
}

/// The identities of snapshots are their own, in their order.
pub proof fn law_identities_in_order<T>(snapshots: Seq<(i64, T)>, i: int)
    requires
        0 <= i < snapshots.len(),
    ensures
        ids_of(snapshots).len() == snapshots.len(),
        ids_of(snapshots)[i] == snapshots[i].1,
{
}

} // verus!
