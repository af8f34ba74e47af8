//! The scene: a row of objects, and the scan that finds the nearest of them along a ray.

use vstd::prelude::*;

verus! {

/// The objects of a scene, in the order in which they were added.
pub struct HittableList<T> {
    objects: Vec<T>,
}

/// The bound that is left for the object at place `n`, after the `n` objects before it gave
/// `finds`: the bound of the last of them that was found, and `limit` where none was.
pub open spec fn bound_at<B, H>(limit: B, finds: Seq<Option<(B, H)>>, n: int) -> B
    decreases n,
{
    if n <= 0 {
        limit
    } else {
        match finds[n - 1] {
            Some(find) => find.0,
            None => bound_at(limit, finds, n - 1),
        }
    }
}

/// The last of `finds` that is one, if any.
pub open spec fn last_found<B, H>(finds: Seq<Option<(B, H)>>) -> Option<(B, H)>
    decreases finds.len(),
{
    if finds.len() == 0 {
        None
    } else {
        match finds.last() {
            Some(find) => Some(find),
            None => last_found(finds.drop_last()),
        }
    }
}

/// Whether `finds` can be what `probe` gave for `objects`, one after the other, where the
/// first is probed up to `limit` and each later one up to the bound of the last find before
/// it.
pub open spec fn scanned<T, B, H, F>(
    objects: Seq<T>,
    probe: F,
    limit: B,
    finds: Seq<Option<(B, H)>>,
) -> bool where F: Fn(&T, B) -> Option<(B, H)> {
    &&& finds.len() == objects.len()
    &&& forall|n: int|
        0 <= n < finds.len() ==> call_ensures(
            probe,
            (&objects[n], bound_at(limit, finds, n)),
            #[trigger] finds[n],
        )
}

/// The bound that is left for the object at place `n` depends on the finds before it only.
pub proof fn lemma_bound_at_of_prefix<B, H>(
    limit: B,
    finds: Seq<Option<(B, H)>>,
    longer: Seq<Option<(B, H)>>,
    n: int,
)
    requires
        n <= finds.len() <= longer.len(),
        forall|m: int| 0 <= m < n ==> finds[m] == longer[m],
    ensures
        bound_at(limit, finds, n) == bound_at(limit, longer, n),
    decreases n,
{
    if n > 0 {
        lemma_bound_at_of_prefix(limit, finds, longer, n - 1);
    }
}

/// Where `probe` can give one thing only for each object and bound, the finds of a scan are
/// settled by it.
pub proof fn lemma_scanned_is_unique<T, B, H, F>(
    objects: Seq<T>,
    probe: F,
    limit: B,
    finds_a: Seq<Option<(B, H)>>,
    finds_b: Seq<Option<(B, H)>>,
) where F: Fn(&T, B) -> Option<(B, H)>
    requires
        scanned(objects, probe, limit, finds_a),
        scanned(objects, probe, limit, finds_b),
        forall|object: T, bound: B, a: Option<(B, H)>, b: Option<(B, H)>|
            #[trigger] call_ensures(probe, (&object, bound), a) && #[trigger] call_ensures(
                probe,
                (&object, bound),
                b,
            ) ==> a == b,
    ensures
        finds_a == finds_b,
{
    lemma_scanned_agree_up_to(objects, probe, limit, finds_a, finds_b, objects.len() as int);
    assert(finds_a =~= finds_b);
}

/// Two scans by a `probe` that can give one thing only agree on the first `k` objects.
proof fn lemma_scanned_agree_up_to<T, B, H, F>(
    objects: Seq<T>,
    probe: F,
    limit: B,
    finds_a: Seq<Option<(B, H)>>,
    finds_b: Seq<Option<(B, H)>>,
    k: int,
) where F: Fn(&T, B) -> Option<(B, H)>
    requires
        scanned(objects, probe, limit, finds_a),
        scanned(objects, probe, limit, finds_b),
        forall|object: T, bound: B, a: Option<(B, H)>, b: Option<(B, H)>|
            #[trigger] call_ensures(probe, (&object, bound), a) && #[trigger] call_ensures(
                probe,
                (&object, bound),
                b,
            ) ==> a == b,
        0 <= k <= objects.len(),
    ensures
        forall|n: int| 0 <= n < k ==> finds_a[n] == finds_b[n],
        bound_at(limit, finds_a, k) == bound_at(limit, finds_b, k),
    decreases k,
{
    if k > 0 {
        lemma_scanned_agree_up_to(objects, probe, limit, finds_a, finds_b, k - 1);
        assert(call_ensures(
            probe,
            (&objects[k - 1], bound_at(limit, finds_a, k - 1)),
            finds_a[k - 1],
        ));
        assert(call_ensures(
            probe,
            (&objects[k - 1], bound_at(limit, finds_b, k - 1)),
            finds_b[k - 1],
        ));
    }
}

/// A find, where it lies under `bound` by `rank`; nothing otherwise.
pub open spec fn under<B, H>(find: Option<(B, H)>, bound: B, rank: spec_fn(B) -> int) -> Option<
    (B, H),
> {
    match find {
        Some(f) => if rank(f.0) < rank(bound) {
            Some(f)
        } else {
            None
        },
        None => None,
    }
}

/// Whether `probe` finds each of `objects` by what lies under the bound: `alone` holds for
/// each object what it gives when probed up to `limit`, which lies under `limit`, and
/// probed up to a bound that is no larger it gives the same where that lies under the bound,
/// and nothing otherwise. `rank` gives the place of a bound in their order.
pub open spec fn probes_by_rank<T, B, H, F>(
    objects: Seq<T>,
    probe: F,
    limit: B,
    rank: spec_fn(B) -> int,
    alone: Seq<Option<(B, H)>>,
) -> bool where F: Fn(&T, B) -> Option<(B, H)> {
    &&& alone.len() == objects.len()
    &&& forall|n: int|
        0 <= n < alone.len() ==> under(#[trigger] alone[n], limit, rank) == alone[n]
    &&& forall|n: int, bound: B, find: Option<(B, H)>|
        0 <= n < objects.len() && rank(bound) <= rank(limit) && #[trigger] call_ensures(
            probe,
            (&objects[n], bound),
            find,
        ) ==> find == under(alone[n], bound, rank)
}

/// Whether `find` is the nearest of what the objects give alone: nothing where none of them
/// gives anything, and otherwise what one of them gives, with a bound that by `rank` is no
/// larger than that of any other.
pub open spec fn nearest_of<B, H>(
    alone: Seq<Option<(B, H)>>,
    rank: spec_fn(B) -> int,
    find: Option<(B, H)>,
) -> bool {
    match find {
        None => forall|n: int| 0 <= n < alone.len() ==> #[trigger] alone[n] is None,
        Some(f) => {
            &&& exists|n: int| 0 <= n < alone.len() && #[trigger] alone[n] == Some(f)
            &&& forall|n: int|
                0 <= n < alone.len() ==> (#[trigger] alone[n] matches Some(g) ==> rank(f.0)
                    <= rank(g.0))
        },
    }
}

/// After the first `k` objects were probed, the bound that is left is that of the last find
/// among them, which is the nearest of what they give alone.
proof fn lemma_scan_of_prefix<T, B, H, F>(
    objects: Seq<T>,
    probe: F,
    limit: B,
    rank: spec_fn(B) -> int,
    alone: Seq<Option<(B, H)>>,
    finds: Seq<Option<(B, H)>>,
    k: int,
) where F: Fn(&T, B) -> Option<(B, H)>
    requires
        scanned(objects, probe, limit, finds),
        probes_by_rank(objects, probe, limit, rank, alone),
        0 <= k <= finds.len(),
    ensures
        bound_at(limit, finds, k) == (match last_found(finds.take(k)) {
            Some(f) => f.0,
            None => limit,
        }),
        rank(bound_at(limit, finds, k)) <= rank(limit),
        nearest_of(alone.take(k), rank, last_found(finds.take(k))),
    decreases k,
{
    if k > 0 {
        lemma_scan_of_prefix(objects, probe, limit, rank, alone, finds, k - 1);
        let before = finds.take(k - 1);
        let now = finds.take(k);
        assert(now.drop_last() =~= before);
        assert(now.last() == finds[k - 1]);
        let bound = bound_at(limit, finds, k - 1);
        assert(call_ensures(probe, (&objects[k - 1], bound), finds[k - 1]));
        assert(finds[k - 1] == under(alone[k - 1], bound, rank));
        assert(under(alone[k - 1], limit, rank) == alone[k - 1]);
        let earlier = alone.take(k - 1);
        let so_far = alone.take(k);
        assert forall|m: int| 0 <= m < k - 1 implies #[trigger] so_far[m] == earlier[m] by {}
        assert(so_far[k - 1] == alone[k - 1]);
        match last_found(before) {
            Some(f) => {
                let m = choose|m: int| 0 <= m < earlier.len() && #[trigger] earlier[m] == Some(f);
                assert(so_far[m] == Some(f));
            },
            None => {
                assert forall|m: int| 0 <= m < k - 1 implies #[trigger] so_far[m] is None by {
                    assert(earlier[m] is None);
                }
            },
        }
        match finds[k - 1] {
            Some(f) => {
                assert(so_far[k - 1] == Some(f));
                assert forall|m: int| 0 <= m < so_far.len() implies (#[trigger] so_far[m] matches Some(
                    g,
                ) ==> rank(f.0) <= rank(g.0)) by {
                    if m < k - 1 {
                        assert(earlier[m] == so_far[m]);
                    }
                }
            },
            None => {
                match last_found(before) {
                    Some(f) => {
                        assert forall|m: int| 0 <= m < so_far.len() implies (
                        #[trigger] so_far[m] matches Some(g) ==> rank(f.0) <= rank(g.0)) by {
                            if m < k - 1 {
                                assert(earlier[m] == so_far[m]);
                            }
                        }
                    },
                    None => {},
                }
            },
        }
    } else {
        assert(finds.take(0) =~= Seq::<Option<(B, H)>>::empty());
    }
}

/// The scan finds the nearest: where `probe` finds each object by what lies under the bound,
/// the scan finds nothing exactly if no object alone gives anything, and otherwise finds what
/// one of the objects gives alone, with a bound that is no larger than that of any other.
pub proof fn lemma_scan_finds_the_nearest<T, B, H, F>(
    objects: Seq<T>,
    probe: F,
    limit: B,
    rank: spec_fn(B) -> int,
    alone: Seq<Option<(B, H)>>,
    finds: Seq<Option<(B, H)>>,
) where F: Fn(&T, B) -> Option<(B, H)>
    requires
        scanned(objects, probe, limit, finds),
        probes_by_rank(objects, probe, limit, rank, alone),
    ensures
        nearest_of(alone, rank, last_found(finds)),
{
    lemma_scan_of_prefix(objects, probe, limit, rank, alone, finds, finds.len() as int);
    assert(finds.take(finds.len() as int) =~= finds);
    assert(alone.take(finds.len() as int) =~= alone);
}

/// The order of the objects does not matter to how near the find is: where two rows of
/// objects give alone the same finds, each as often as in the other row, a scan of the one
/// finds something exactly if a scan of the other does, and with a bound of the same rank.
pub proof fn lemma_scan_order_does_not_matter<T, B, H, F>(
    objects_a: Seq<T>,
    objects_b: Seq<T>,
    probe: F,
    limit: B,
    rank: spec_fn(B) -> int,
    alone_a: Seq<Option<(B, H)>>,
    alone_b: Seq<Option<(B, H)>>,
    finds_a: Seq<Option<(B, H)>>,
    finds_b: Seq<Option<(B, H)>>,
) where F: Fn(&T, B) -> Option<(B, H)>
    requires
        scanned(objects_a, probe, limit, finds_a),
        scanned(objects_b, probe, limit, finds_b),
        probes_by_rank(objects_a, probe, limit, rank, alone_a),
        probes_by_rank(objects_b, probe, limit, rank, alone_b),
        alone_a.to_multiset() == alone_b.to_multiset(),
    ensures
        last_found(finds_a) is Some <==> last_found(finds_b) is Some,
        last_found(finds_a) matches Some(a) ==> (last_found(finds_b) matches Some(b) ==> rank(a.0)
            == rank(b.0)),
{
    lemma_scan_finds_the_nearest(objects_a, probe, limit, rank, alone_a, finds_a);
    lemma_scan_finds_the_nearest(objects_b, probe, limit, rank, alone_b, finds_b);
    if let Some(a) = last_found(finds_a) {
        let n = choose|n: int| 0 <= n < alone_a.len() && #[trigger] alone_a[n] == Some(a);
        assert(alone_a.contains(Some(a)));
        vstd::seq_lib::to_multiset_contains(alone_a, Some(a));
        vstd::seq_lib::to_multiset_contains(alone_b, Some(a));
        let m = choose|m: int| 0 <= m < alone_b.len() && alone_b[m] == Some(a);
        assert(alone_b[m] matches Some(g) && g == a);
    }
    if let Some(b) = last_found(finds_b) {
        let n = choose|n: int| 0 <= n < alone_b.len() && #[trigger] alone_b[n] == Some(b);
        assert(alone_b.contains(Some(b)));
        vstd::seq_lib::to_multiset_contains(alone_b, Some(b));
        vstd::seq_lib::to_multiset_contains(alone_a, Some(b));
        let m = choose|m: int| 0 <= m < alone_a.len() && alone_a[m] == Some(b);
        assert(alone_a[m] matches Some(g) && g == b);
    }
}

impl<T> HittableList<T> {
    /// The objects, in the order in which they were added.
    pub closed spec fn view(&self) -> Seq<T> {
        self.objects@
    }

    /// A scene without objects.
    pub fn new() -> (list: Self)
        ensures
            list@ == Seq::<T>::empty(),
    {
        Self { objects: Vec::new() }
    }

    /// Adds `object` behind the objects that are there.
    pub fn with_object(&mut self, object: T)
        ensures
            final(self)@ == old(self)@.push(object),
    {
        self.add(object);
    }

    /// Adds `object` behind the objects that are there.
    pub fn add(&mut self, object: T)
        ensures
            final(self)@ == old(self)@.push(object),
    {
        self.objects.push(object);
    }

    /// Takes all objects out.
    pub fn clear(&mut self)
        ensures
            final(self)@ == Seq::<T>::empty(),
    {
        self.objects.clear();
    }

    /// The number of objects.
    pub fn len(&self) -> (n: usize)
        ensures
            n == self@.len(),
    {
        self.objects.len()
    }

    /// Probes the objects in their order, the first up to `limit` and each later one up to
    /// the bound of the last find before it. Where an object was found, the last find is put
    /// into `rec`, and the result is true; where none was, `rec` is left as it is, and the
    /// result is false. Where `probe` finds each object by what lies under the bound, the
    /// last find is the nearest of what the objects give alone.
    pub fn hit<B, H, F>(&self, limit: B, probe: F, rec: &mut H) -> (hit_anything: bool) where
        B: Copy,
        F: Fn(&T, B) -> Option<(B, H)>,

        requires
            forall|n: int, bound: B|
                0 <= n < self@.len() ==> call_requires(probe, (&self@[n], bound)),
        ensures
            exists|finds: Seq<Option<(B, H)>>|
                {
                    &&& #[trigger] scanned(self@, probe, limit, finds)
                    &&& match last_found(finds) {
                        Some(find) => hit_anything && *final(rec) == find.1,
                        None => !hit_anything && *final(rec) == *old(rec),
                    }
                    &&& forall|rank: spec_fn(B) -> int, alone: Seq<Option<(B, H)>>| #[trigger]
                        probes_by_rank(self@, probe, limit, rank, alone) ==> nearest_of(
                            alone,
                            rank,
                            last_found(finds),
                        )
                },
    {
        let mut hit_anything = false;
        let mut closest_so_far = limit;
        let ghost mut finds: Seq<Option<(B, H)>> = Seq::empty();
        let mut n: usize = 0;
        while n < self.objects.len()
            invariant
                n <= self.objects.len(),
                finds.len() == n,
                closest_so_far == bound_at(limit, finds, n as int),
                forall|m: int, bound: B|
                    0 <= m < self@.len() ==> call_requires(probe, (&self@[m], bound)),
                forall|m: int|
                    0 <= m < n ==> call_ensures(
                        probe,
                        (&self@[m], bound_at(limit, finds, m)),
                        #[trigger] finds[m],
                    ),
                match last_found(finds) {
                    Some(find) => hit_anything && *rec == find.1,
                    None => !hit_anything && *rec == *old(rec),
                },
            decreases self.objects.len() - n,
        {
            let found = probe(&self.objects[n], closest_so_far);
            proof {
                let longer = finds.push(found);
                assert(longer.drop_last() =~= finds);
                assert forall|m: int| 0 <= m <= n implies bound_at(limit, finds, m) == bound_at(
                    limit,
                    longer,
                    m,
                ) by {
                    lemma_bound_at_of_prefix(limit, finds, longer, m);
                }
                finds = longer;
            }
            match found {
                Some(find) => {
                    closest_so_far = find.0;
                    *rec = find.1;
                    hit_anything = true;
                },
                None => {},
            }
            n = n + 1;
        }
        proof {
            assert(scanned(self@, probe, limit, finds));
            assert forall|rank: spec_fn(B) -> int, alone: Seq<Option<(B, H)>>| #[trigger]
                probes_by_rank(self@, probe, limit, rank, alone) implies nearest_of(
                alone,
                rank,
                last_found(finds),
            ) by {
                lemma_scan_finds_the_nearest(self@, probe, limit, rank, alone, finds);
            }
        }
        hit_anything
    }
}

impl<T> Default for HittableList<T> {
    /// A scene without objects.
    fn default() -> (list: Self)
        ensures
            list@ == Seq::<T>::empty(),
    {
        Self::new()
    }
}

} // verus!
