//! Nearest-hit selection over an ordered collection of scene objects.
//!
//! A distance along a ray is carried as a key: an unsigned integer whose
//! order is the order of the distances. Each object is asked for a hit
//! strictly inside an open interval of keys; the collection keeps the
//! nearest one, narrowing the interval as it goes.

use vstd::prelude::*;

verus! {

/// What one object answers: nothing, or the key of its hit together with
/// whatever record the caller attaches to it.
pub type Report<R> = Option<(u64, R)>;

/// Report `i` is a hit strictly inside `(t_min, t_max)`.
pub open spec fn valid_at<R>(reports: Seq<Report<R>>, i: int, t_min: u64, t_max: u64) -> bool {
    &&& 0 <= i < reports.len()
    &&& reports[i] matches Some(h) && t_min < h.0 < t_max
}

/// The key of report `i`, which must be a hit.
pub open spec fn key_at<R>(reports: Seq<Report<R>>, i: int) -> u64 {
    reports[i]->Some_0.0
}

/// `winner` names the nearest hit among `reports`: a hit inside
/// `(t_min, t_max)` that no other such hit undercuts, and the earliest of
/// those with its key; or nothing, when no report is such a hit.
pub open spec fn is_nearest<R>(
    reports: Seq<Report<R>>,
    t_min: u64,
    t_max: u64,
    winner: Option<int>,
) -> bool {
    match winner {
        None => forall|i: int| !valid_at(reports, i, t_min, t_max),
        Some(w) => {
            &&& valid_at(reports, w, t_min, t_max)
            &&& forall|i: int| #[trigger]
                valid_at(reports, i, t_min, t_max) ==> key_at(reports, w) <= key_at(reports, i)
            &&& forall|i: int| #[trigger]
                valid_at(reports, i, t_min, t_max) && i < w ==> key_at(reports, w) < key_at(
                    reports,
                    i,
                )
        },
    }
}

/// At most one answer is the nearest hit.
pub proof fn lemma_nearest_unique<R>(
    reports: Seq<Report<R>>,
    t_min: u64,
    t_max: u64,
    a: Option<int>,
    b: Option<int>,
)
    requires
        is_nearest(reports, t_min, t_max, a),
        is_nearest(reports, t_min, t_max, b),
    ensures
        a == b,
{
    match (a, b) {
        (Some(x), Some(y)) => {
            assert(valid_at(reports, x, t_min, t_max));
            assert(valid_at(reports, y, t_min, t_max));
            if x < y {
                assert(key_at(reports, y) < key_at(reports, x));
            } else if y < x {
                assert(key_at(reports, x) < key_at(reports, y));
            }
        },
        (Some(x), None) => {
            assert(valid_at(reports, x, t_min, t_max));
        },
        (None, Some(y)) => {
            assert(valid_at(reports, y, t_min, t_max));
        },
        (None, None) => {},
    }
}

/// The nearest hit after one more report: the newcomer if it is a hit inside
/// the interval and strictly nearer than the nearest so far, else the
/// nearest so far.
pub open spec fn next_winner<R>(
    reports: Seq<Report<R>>,
    t_min: u64,
    t_max: u64,
    winner: Option<int>,
    report: Report<R>,
) -> Option<int> {
    let bound = match winner {
        Some(w) => key_at(reports, w),
        None => t_max,
    };
    match report {
        Some(h) => if t_min < h.0 < bound {
            Some(reports.len() as int)
        } else {
            winner
        },
        None => winner,
    }
}

/// The nearest hit among `reports`, found by taking them one by one.
pub open spec fn nearest<R>(reports: Seq<Report<R>>, t_min: u64, t_max: u64) -> Option<int>
    decreases reports.len(),
{
    if reports.len() == 0 {
        None
    } else {
        next_winner(
            reports.drop_last(),
            t_min,
            t_max,
            nearest(reports.drop_last(), t_min, t_max),
            reports.last(),
        )
    }
}

/// The upper bound that is in force after `reports` have been seen: the
/// key of the nearest hit so far, or `t_max` while there is none.
pub open spec fn bound_after<R>(reports: Seq<Report<R>>, t_min: u64, t_max: u64) -> u64 {
    match nearest(reports, t_min, t_max) {
        Some(w) => key_at(reports, w),
        None => t_max,
    }
}

/// Taking the next report into account as `next_winner` does keeps the
/// answer the nearest hit.
pub proof fn lemma_extend_nearest<R>(
    reports: Seq<Report<R>>,
    t_min: u64,
    t_max: u64,
    winner: Option<int>,
    report: Report<R>,
)
    requires
        is_nearest(reports, t_min, t_max, winner),
    ensures
        is_nearest(
            reports.push(report),
            t_min,
            t_max,
            next_winner(reports, t_min, t_max, winner, report),
        ),
{
    let all = reports.push(report);
    let n = reports.len() as int;
    let next = next_winner(reports, t_min, t_max, winner, report);
    assert forall|i: int| 0 <= i < n implies (valid_at(all, i, t_min, t_max) == valid_at(
        reports,
        i,
        t_min,
        t_max,
    ) && key_at(all, i) == key_at(reports, i)) by {}
    match winner {
        Some(w) => {
            assert(valid_at(reports, w, t_min, t_max));
        },
        None => {},
    }
    match next {
        None => {
            assert forall|i: int| !valid_at(all, i, t_min, t_max) by {
                if 0 <= i < n {
                    assert(!valid_at(reports, i, t_min, t_max));
                }
            }
        },
        Some(v) => {
            assert(valid_at(all, v, t_min, t_max));
            assert forall|i: int| #[trigger]
                valid_at(all, i, t_min, t_max) implies key_at(all, v) <= key_at(all, i) && (i < v
                ==> key_at(all, v) < key_at(all, i)) by {
                if i < n {
                    assert(valid_at(reports, i, t_min, t_max));
                }
            }
        },
    }
}

/// Taking the reports one by one finds the nearest hit: the minimal key
/// among the hits inside the interval, and nothing exactly when no report
/// is such a hit.
pub proof fn lemma_nearest<R>(reports: Seq<Report<R>>, t_min: u64, t_max: u64)
    ensures
        is_nearest(reports, t_min, t_max, nearest(reports, t_min, t_max)),
        nearest(reports, t_min, t_max).is_none() <==> forall|i: int|
            !valid_at(reports, i, t_min, t_max),
        t_min < bound_after(reports, t_min, t_max) || bound_after(reports, t_min, t_max) == t_max,
        bound_after(reports, t_min, t_max) <= t_max,
    decreases reports.len(),
{
    if reports.len() > 0 {
        let head = reports.drop_last();
        lemma_nearest(head, t_min, t_max);
        lemma_extend_nearest(head, t_min, t_max, nearest(head, t_min, t_max), reports.last());
        assert(head.push(reports.last()) =~= reports);
    }
    match nearest(reports, t_min, t_max) {
        Some(w) => {
            assert(valid_at(reports, w, t_min, t_max));
        },
        None => {},
    }
}

/// The order of the objects does not matter to how near the nearest hit
/// is: two runs of reports that hold hits with the same keys inside the
/// interval leave the same bound in force, and both or neither have a hit.
pub proof fn lemma_order_irrelevant<R>(a: Seq<Report<R>>, b: Seq<Report<R>>, t_min: u64, t_max: u64)
    requires
        forall|i: int| #[trigger]
            valid_at(a, i, t_min, t_max) ==> exists|j: int| #[trigger]
                valid_at(b, j, t_min, t_max) && key_at(b, j) == key_at(a, i),
        forall|j: int| #[trigger]
            valid_at(b, j, t_min, t_max) ==> exists|i: int| #[trigger]
                valid_at(a, i, t_min, t_max) && key_at(a, i) == key_at(b, j),
    ensures
        bound_after(a, t_min, t_max) == bound_after(b, t_min, t_max),
        nearest(a, t_min, t_max).is_none() == nearest(b, t_min, t_max).is_none(),
{
    lemma_nearest(a, t_min, t_max);
    lemma_nearest(b, t_min, t_max);
    match nearest(a, t_min, t_max) {
        Some(wa) => {
            assert(valid_at(a, wa, t_min, t_max));
            let j = choose|j: int| #[trigger]
                valid_at(b, j, t_min, t_max) && key_at(b, j) == key_at(a, wa);
            assert(valid_at(b, j, t_min, t_max));
            let wb = nearest(b, t_min, t_max)->Some_0;
            assert(valid_at(b, wb, t_min, t_max));
            let i = choose|i: int| #[trigger]
                valid_at(a, i, t_min, t_max) && key_at(a, i) == key_at(b, wb);
            assert(valid_at(a, i, t_min, t_max));
        },
        None => {
            match nearest(b, t_min, t_max) {
                Some(wb) => {
                    assert(valid_at(b, wb, t_min, t_max));
                    let i = choose|i: int| #[trigger]
                        valid_at(a, i, t_min, t_max) && key_at(a, i) == key_at(b, wb);
                    assert(valid_at(a, i, t_min, t_max));
                },
                None => {},
            }
        },
    }
}

/// Every hit among `reports` honours the bounds its object was asked
/// with: it lies above `t_min` and below the bound that the reports before
/// it had left in force.
pub open spec fn conforming<R>(reports: Seq<Report<R>>, t_min: u64, t_max: u64) -> bool {
    forall|i: int|
        0 <= i < reports.len() ==> (#[trigger] reports[i] matches Some(h) ==> t_min < h.0
            < bound_after(reports.take(i), t_min, t_max))
}

/// Among objects that honour their bounds the last one to report a hit has
/// the nearest hit, and there is no nearest hit exactly when every object
/// reported none.
pub proof fn lemma_conforming_last_wins<R>(reports: Seq<Report<R>>, t_min: u64, t_max: u64)
    requires
        conforming(reports, t_min, t_max),
    ensures
        nearest(reports, t_min, t_max).is_none() <==> forall|i: int|
            0 <= i < reports.len() ==> (#[trigger] reports[i]).is_none(),
        nearest(reports, t_min, t_max) matches Some(w) ==> {
            &&& 0 <= w < reports.len()
            &&& reports[w].is_some()
            &&& forall|i: int| w < i < reports.len() ==> (#[trigger] reports[i]).is_none()
        },
    decreases reports.len(),
{
    if reports.len() > 0 {
        let head = reports.drop_last();
        let n = head.len() as int;
        assert(reports.take(n) =~= head);
        assert forall|i: int| 0 <= i < head.len() implies (#[trigger] head[i] matches Some(h)
            ==> t_min < h.0 < bound_after(head.take(i), t_min, t_max)) by {
            assert(head.take(i) =~= reports.take(i));
            assert(head[i] == reports[i]);
        }
        lemma_conforming_last_wins(head, t_min, t_max);
        lemma_nearest(head, t_min, t_max);
        assert(forall|i: int| 0 <= i < n ==> head[i] == reports[i]);
        match reports.last() {
            Some(h) => {
                assert(reports[n] == Some(h));
                assert(nearest(reports, t_min, t_max) == Some(n));
            },
            None => {
                assert(reports[n].is_none());
                assert(nearest(reports, t_min, t_max) == nearest(head, t_min, t_max));
                match nearest(head, t_min, t_max) {
                    Some(w) => {
                        assert(reports[w] == head[w]);
                    },
                    None => {},
                }
            },
        }
    }
}

/// The running state of one query against a collection: which object has
/// the nearest hit so far, and the bound that the next object is asked with.
pub struct Scan<R> {
    t_min: u64,
    t_max: u64,
    closest_so_far: u64,
    best: Option<(usize, R)>,
    visited: usize,
    seen: Ghost<Seq<Report<R>>>,
}

impl<R> Scan<R> {
    /// The reports taken into account so far, in order.
    pub closed spec fn reports(&self) -> Seq<Report<R>> {
        self.seen@
    }

    /// Lower end of the query interval.
    pub closed spec fn spec_t_min(&self) -> u64 {
        self.t_min
    }

    /// Upper end of the query interval.
    pub closed spec fn spec_t_max(&self) -> u64 {
        self.t_max
    }

    /// Position of the object with the nearest hit so far.
    pub closed spec fn winner(&self) -> Option<int> {
        match self.best {
            Some(b) => Some(b.0 as int),
            None => None,
        }
    }

    /// The state agrees with the reports it has seen.
    pub closed spec fn wf(&self) -> bool {
        &&& self.visited as int == self.seen@.len()
        &&& self.winner() == nearest(self.seen@, self.t_min, self.t_max)
        &&& self.closest_so_far == bound_after(self.seen@, self.t_min, self.t_max)
        &&& self.best matches Some(b) ==> self.seen@[b.0 as int] == Some(
            (self.closest_so_far, b.1),
        )
    }

    /// Starts a query for hits strictly inside `(t_min, t_max)`.
    pub fn new(t_min: u64, t_max: u64) -> (scan: Self)
        ensures
            scan.wf(),
            scan.reports() == Seq::<Report<R>>::empty(),
            scan.spec_t_min() == t_min,
            scan.spec_t_max() == t_max,
    {
        Scan {
            t_min,
            t_max,
            closest_so_far: t_max,
            best: None,
            visited: 0,
            seen: Ghost(Seq::empty()),
        }
    }

    /// The upper bound to ask the next object with.
    pub fn closest_so_far(&self) -> (bound: u64)
        requires
            self.wf(),
        ensures
            bound == bound_after(self.reports(), self.spec_t_min(), self.spec_t_max()),
    {
        self.closest_so_far
    }

    /// Number of reports taken so far.
    pub fn visited(&self) -> (n: usize)
        requires
            self.wf(),
        ensures
            n == self.reports().len(),
    {
        self.visited
    }

    /// Takes the report of the next object. A hit strictly inside the
    /// interval and strictly below the bound in force becomes the nearest
    /// hit; anything else leaves the nearest hit as it was.
    pub fn record(&mut self, report: Report<R>)
        requires
            old(self).wf(),
            old(self).reports().len() < usize::MAX,
        ensures
            final(self).wf(),
            final(self).reports() == old(self).reports().push(report),
            final(self).spec_t_min() == old(self).spec_t_min(),
            final(self).spec_t_max() == old(self).spec_t_max(),
    {
        proof {
            lemma_nearest(self.seen@, self.t_min, self.t_max);
            assert(self.seen@.push(report).drop_last() =~= self.seen@);
            assert(self.seen@.push(report).last() == report);
        }
        self.seen = Ghost(self.seen@.push(report));
        match report {
            Some((t, rec)) => {
                if self.t_min < t && t < self.closest_so_far {
                    self.closest_so_far = t;
                    self.best = Some((self.visited, rec));
                }
            },
            None => {},
        }
        self.visited = self.visited + 1;
    }

    /// The nearest hit among all reports taken: the position of the object,
    /// the key of its hit and the record that came with it.
    pub fn finish(self) -> (res: Option<(usize, u64, R)>)
        requires
            self.wf(),
        ensures
            hit_position(res) == nearest(self.reports(), self.spec_t_min(), self.spec_t_max()),
            is_nearest(self.reports(), self.spec_t_min(), self.spec_t_max(), hit_position(res)),
            res matches Some(h) ==> self.reports()[h.0 as int] == Some((h.1, h.2)),
    {
        proof {
            lemma_nearest(self.seen@, self.t_min, self.t_max);
        }
        match self.best {
            Some((at, rec)) => Some((at, self.closest_so_far, rec)),
            None => None,
        }
    }
}

/// The position that a query result names, if it names one.
pub open spec fn hit_position<R>(res: Option<(usize, u64, R)>) -> Option<int> {
    match res {
        Some(h) => Some(h.0 as int),
        None => None,
    }
}

/// `reports` are what the objects answered when asked in order: each
/// object was asked for a hit above `t_min` and below the bound that the
/// reports before it had left in force.
pub open spec fn answers<T, R, F: Fn(&T, u64, u64) -> Report<R>>(
    objects: Seq<T>,
    probe: F,
    t_min: u64,
    t_max: u64,
    reports: Seq<Report<R>>,
) -> bool {
    &&& reports.len() == objects.len()
    &&& forall|i: int|
        0 <= i < reports.len() ==> probe.ensures(
            (&objects[i], t_min, bound_after(reports.take(i), t_min, t_max)),
            #[trigger] reports[i],
        )
}

/// Objects that only ever report a hit strictly inside the bounds they
/// are asked with give reports that honour those bounds; the collection
/// then misses exactly when every one of its objects misses.
pub proof fn lemma_answers_conform<T, R, F: Fn(&T, u64, u64) -> Report<R>>(
    objects: Seq<T>,
    probe: F,
    t_min: u64,
    t_max: u64,
    reports: Seq<Report<R>>,
)
    requires
        answers(objects, probe, t_min, t_max, reports),
        forall|object: &T, lo: u64, hi: u64, report: Report<R>| #[trigger]
            probe.ensures((object, lo, hi), report) ==> (report matches Some(h) ==> lo < h.0 < hi),
    ensures
        conforming(reports, t_min, t_max),
        nearest(reports, t_min, t_max).is_none() <==> forall|i: int|
            0 <= i < reports.len() ==> (#[trigger] reports[i]).is_none(),
{
    assert forall|i: int| 0 <= i < reports.len() implies (#[trigger] reports[i] matches Some(h)
        ==> t_min < h.0 < bound_after(reports.take(i), t_min, t_max)) by {
        assert(probe.ensures(
            (&objects[i], t_min, bound_after(reports.take(i), t_min, t_max)),
            reports[i],
        ));
    }
    lemma_conforming_last_wins(reports, t_min, t_max);
}

/// An ordered collection of scene objects that answers as one object.
pub struct HittableList<T> {
    objects: Vec<T>,
}

impl<T> HittableList<T> {
    /// The objects, in insertion order.
    pub closed spec fn view(&self) -> Seq<T> {
        self.objects@
    }

    /// A collection of the given objects.
    pub fn new(objects: Vec<T>) -> (list: Self)
        ensures
            list@ == objects@,
    {
        HittableList { objects }
    }

    /// Appends an object.
    pub fn add(&mut self, object: T)
        ensures
            final(self)@ == old(self)@.push(object),
    {
        self.objects.push(object);
    }

    /// Removes every object.
    pub fn clear(&mut self)
        ensures
            final(self)@ == Seq::<T>::empty(),
    {
        self.objects.clear();
    }

    /// Number of objects.
    pub fn len(&self) -> (n: usize)
        ensures
            n == self@.len(),
    {
        self.objects.len()
    }

    /// The object at position `i`, if there is one.
    pub fn get(&self, i: usize) -> (object: Option<&T>)
        ensures
            i < self@.len() ==> object == Some(&self@[i as int]),
            i >= self@.len() ==> object.is_none(),
    {
        if i < self.objects.len() {
            Some(&self.objects[i])
        } else {
            None
        }
    }

    /// Asks every object in order for a hit strictly inside `(t_min, t_max)`
    /// and returns the nearest: its position, its key and its record. Each
    /// object is asked through `probe` with the bound narrowed to the
    /// nearest hit found before it. The result is a hit with the minimal
    /// key among all answers inside the interval, and nothing exactly when
    /// no object gave such an answer.
    pub fn hit<R, F: Fn(&T, u64, u64) -> Report<R>>(&self, probe: F, t_min: u64, t_max: u64) -> (res:
        Option<(usize, u64, R)>)
        requires
            forall|i: int, bound: u64|
                0 <= i < self@.len() ==> probe.requires((&self@[i], t_min, bound)),
        ensures
            exists|reports: Seq<Report<R>>|
                {
                    &&& #[trigger] answers(self@, probe, t_min, t_max, reports)
                    &&& hit_position(res) == nearest(reports, t_min, t_max)
                    &&& is_nearest(reports, t_min, t_max, hit_position(res))
                    &&& res matches Some(h) ==> reports[h.0 as int] == Some((h.1, h.2))
                },
    {
        let mut scan: Scan<R> = Scan::new(t_min, t_max);
        let mut i: usize = 0;
        while i < self.objects.len()
            invariant
                i <= self.objects@.len(),
                scan.wf(),
                scan.reports().len() == i,
                scan.spec_t_min() == t_min,
                scan.spec_t_max() == t_max,
                forall|k: int, bound: u64|
                    0 <= k < self@.len() ==> probe.requires((&self@[k], t_min, bound)),
                forall|k: int|
                    0 <= k < i ==> probe.ensures(
                        (&self.objects@[k], t_min, bound_after(scan.reports().take(k), t_min, t_max)),
                        #[trigger] scan.reports()[k],
                    ),
            decreases self.objects@.len() - i,
        {
            let bound = scan.closest_so_far();
            let ghost before = scan.reports();
            let object = &self.objects[i];
            assert(probe.requires((&self@[i as int], t_min, bound)));
            let report = probe(object, t_min, bound);
            scan.record(report);
            proof {
                let after = scan.reports();
                assert(after.take(i as int) =~= before);
                assert forall|k: int| 0 <= k < i + 1 implies probe.ensures(
                    (&self.objects@[k], t_min, bound_after(after.take(k), t_min, t_max)),
                    #[trigger] after[k],
                ) by {
                    if k < i {
                        assert(after.take(k) =~= before.take(k));
                        assert(after[k] == before[k]);
                    }
                }
            }
            i += 1;
        }
        let ghost reports = scan.reports();
        let res = scan.finish();
        proof {
            assert(answers(self@, probe, t_min, t_max, reports));
        }
        res
    }
}

impl<T> Default for HittableList<T> {
    /// The empty collection.
    fn default() -> (list: Self)
        ensures
            list@ == Seq::<T>::empty(),
    {
        HittableList { objects: Vec::new() }
    }
}

} // verus!
