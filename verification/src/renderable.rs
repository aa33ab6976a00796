//! The scene aggregate and the bookkeeping of a nearest-hit query.

use vstd::prelude::*;

verus! {

/// Which root of the ray-sphere quadratic is the hit.
#[derive(Clone, Copy, Debug, PartialEq, Eq, Structural)]
pub enum RootChoice {
    /// The ray does not hit the sphere within the interval.
    Miss,
    /// The smaller root: the ray enters the sphere there.
    Near,
    /// The larger root: the ray leaves the sphere there.
    Far,
}

/// The root that counts as the hit. A tangent or missing ray (discriminant
/// not positive) hits nothing; otherwise entry is preferred over exit, and a
/// root counts only inside the open interval of the query.
pub open spec fn root_choice(
    discriminant_positive: bool,
    near_in_range: bool,
    far_in_range: bool,
) -> RootChoice {
    if !discriminant_positive {
        RootChoice::Miss
    } else if near_in_range {
        RootChoice::Near
    } else if far_in_range {
        RootChoice::Far
    } else {
        RootChoice::Miss
    }
}

/// Picks the root of the ray-sphere quadratic that is reported as the hit,
/// from the sign of the discriminant and from whether each root lies strictly
/// between the bounds of the query.
pub fn select_root(discriminant_positive: bool, near_in_range: bool, far_in_range: bool) -> (choice:
    RootChoice)
    ensures
        choice == root_choice(discriminant_positive, near_in_range, far_in_range),
{
    if !discriminant_positive {
        return RootChoice::Miss;
    }
    if near_in_range {
        RootChoice::Near
    } else if far_in_range {
        RootChoice::Far
    } else {
        RootChoice::Miss
    }
}

/// Which of its two rays a dielectric surface sends on.
#[derive(Clone, Copy, Debug, PartialEq, Eq, Structural)]
pub enum DielectricRay {
    /// The mirror image of the incoming ray.
    Reflected,
    /// The incoming ray bent into the other medium.
    Refracted,
}

/// The ray that a dielectric sends on. Under total internal reflection, when
/// no refracted ray exists, it reflects; otherwise it reflects when the random
/// roll falls below the reflectance, and refracts when it does not.
pub open spec fn dielectric_ray(refraction_exists: bool, roll_below_reflectance: bool) -> DielectricRay {
    if !refraction_exists || roll_below_reflectance {
        DielectricRay::Reflected
    } else {
        DielectricRay::Refracted
    }
}

/// Picks the one ray that a dielectric surface sends on, from whether a
/// refracted ray exists and whether the random roll fell below the
/// reflectance.
pub fn select_dielectric_ray(refraction_exists: bool, roll_below_reflectance: bool) -> (ray:
    DielectricRay)
    ensures
        ray == dielectric_ray(refraction_exists, roll_below_reflectance),
{
    if !refraction_exists {
        return DielectricRay::Reflected;
    }
    if roll_below_reflectance {
        DielectricRay::Reflected
    } else {
        DielectricRay::Refracted
    }
}

/// What a nearest-hit query reports: which primitive is hit first, and when.
pub struct HitRecord<T> {
    /// Position of the primitive in the scene.
    pub index: usize,
    /// The ray parameter of the hit.
    pub time: T,
}

/// The closest hit time after the first `count` primitives were examined in
/// order, each against the closest time before it: `outcomes[i]` is what
/// primitive `i` reported, `Some` with the time of a hit that beats the
/// closest so far, or `None`.
pub open spec fn closest_after<T>(time_max: T, outcomes: Seq<Option<T>>, count: int) -> T
    decreases count,
{
    if count <= 0 {
        time_max
    } else {
        match outcomes[count - 1] {
            Some(time) => time,
            None => closest_after(time_max, outcomes, count - 1),
        }
    }
}

/// The last primitive among the first `count` that reported a hit.
pub open spec fn winner_after<T>(outcomes: Seq<Option<T>>, count: int) -> Option<int>
    decreases count,
{
    if count <= 0 {
        None
    } else if outcomes[count - 1] is Some {
        Some(count - 1)
    } else {
        winner_after(outcomes, count - 1)
    }
}

/// `outcomes` is a run of the shrinking-interval scan over `list`: primitive
/// `i` was asked for a hit before the closest time found among the primitives
/// before it, and answered `outcomes[i]`.
pub open spec fn is_scan<S, M, T, F: Fn(&S, &T) -> Option<T>>(
    list: Seq<(S, M)>,
    probe: F,
    time_max: T,
    outcomes: Seq<Option<T>>,
) -> bool {
    &&& outcomes.len() == list.len()
    &&& forall|i: int|
        0 <= i < list.len() ==> call_ensures(
            probe,
            (&list[i].0, &closest_after(time_max, outcomes, i)),
            #[trigger] outcomes[i],
        )
}

/// A primitive of a scene together with the material of its surface.
pub struct MaterialPackage<'a, S, M> {
    pub sphere: &'a S,
    pub material: &'a M,
}

/// The scene aggregate: primitives in the order in which they were added, each
/// with its material. Entries are only ever appended.
pub struct RenderList<S, M> {
    m_spheres: Vec<(S, M)>,
}

impl<S, M> View for RenderList<S, M> {
    type V = Seq<(S, M)>;

    /// The primitives with their materials, in insertion order.
    closed spec fn view(&self) -> Seq<(S, M)> {
        self.m_spheres@
    }
}

impl<S, M> RenderList<S, M> {
    /// An empty scene.
    pub fn new() -> (list: RenderList<S, M>)
        ensures
            list@ == Seq::<(S, M)>::empty(),
    {
        RenderList { m_spheres: Vec::new() }
    }

    /// Appends a primitive and the material of its surface.
    pub fn add_sphere(&mut self, sphere: S, material: M)
        ensures
            final(self)@ == old(self)@.push((sphere, material)),
    {
        self.m_spheres.push((sphere, material));
    }

    /// Number of primitives in the scene.
    pub fn len(&self) -> (count: usize)
        ensures
            count == self@.len(),
    {
        self.m_spheres.len()
    }

    /// The primitive at `hit_index` and its material.
    pub fn get_material_package(&self, hit_index: usize) -> (package: MaterialPackage<'_, S, M>)
        requires
            hit_index < self@.len(),
        ensures
            *package.sphere == self@[hit_index as int].0,
            *package.material == self@[hit_index as int].1,
    {
        let entry = &self.m_spheres[hit_index];
        MaterialPackage { sphere: &entry.0, material: &entry.1 }
    }

    /// The nearest hit of a ray in the scene, before `time_max`.
    ///
    /// `probe` intersects the ray with one primitive: given the primitive and
    /// an upper bound, it returns the time of the hit if there is one before
    /// the bound, and `None` otherwise. The primitives are examined in order,
    /// each against the closest hit so far, so the last one that reports a hit
    /// is the nearest.
    pub fn try_get_hit_record<T, F: Fn(&S, &T) -> Option<T>>(&self, time_max: T, probe: F) -> (result:
        Option<HitRecord<T>>)
        requires
            forall|i: int, bound: T|
                0 <= i < self@.len() ==> call_requires(probe, (&#[trigger] self@[i].0, &bound)),
        ensures
            result is Some ==> result->0.index < self@.len(),
            result is None ==> forall|i: int|
                0 <= i < self@.len() ==> call_ensures(
                    probe,
                    (&#[trigger] self@[i].0, &time_max),
                    None::<T>,
                ),
            exists|outcomes: Seq<Option<T>>|
                {
                    &&& is_scan(self@, probe, time_max, outcomes)
                    &&& match result {
                        Some(record) => {
                            &&& winner_after(outcomes, self@.len() as int) == Some(
                                record.index as int,
                            )
                            &&& record.time == closest_after(time_max, outcomes, self@.len() as int)
                        },
                        None => winner_after(outcomes, self@.len() as int) is None,
                    }
                },
    {
        let count: usize = self.m_spheres.len();
        let mut closest_time: T = time_max;
        let mut closest_hit_index: Option<usize> = None;
        let ghost mut outcomes: Seq<Option<T>> = Seq::empty();
        let mut index: usize = 0;
        while index < count
            invariant
                count == self@.len(),
                index <= count,
                outcomes.len() == index,
                forall|i: int, bound: T|
                    0 <= i < self@.len() ==> call_requires(probe, (&#[trigger] self@[i].0, &bound)),
                forall|i: int|
                    0 <= i < index ==> call_ensures(
                        probe,
                        (&self@[i].0, &closest_after(time_max, outcomes, i)),
                        #[trigger] outcomes[i],
                    ),
                closest_time == closest_after(time_max, outcomes, index as int),
                match closest_hit_index {
                    Some(hit) => winner_after(outcomes, index as int) == Some(hit as int),
                    None => winner_after(outcomes, index as int) is None,
                },
            decreases count - index,
        {
            let hit_time = probe(&self.m_spheres[index].0, &closest_time);
            proof {
                let extended = outcomes.push(hit_time);
                lemma_scan_prefix(time_max, outcomes, extended, index as int);
                assert forall|i: int| 0 <= i < index + 1 implies call_ensures(
                    probe,
                    (&self@[i].0, &closest_after(time_max, extended, i)),
                    #[trigger] extended[i],
                ) by {
                    lemma_scan_prefix(time_max, outcomes, extended, i);
                    if i < index {
                        assert(extended[i] == outcomes[i]);
                    }
                }
                outcomes = extended;
            }
            match hit_time {
                Some(time) => {
                    closest_time = time;
                    closest_hit_index = Some(index);
                },
                None => {},
            }
            index = index + 1;
        }
        proof {
            assert(is_scan(self@, probe, time_max, outcomes));
            lemma_scan_state(time_max, outcomes, count as int);
            if closest_hit_index is None {
                lemma_scan_miss(self@, probe, time_max, outcomes);
            }
        }
        match closest_hit_index {
            Some(hit) => Some(HitRecord { index: hit, time: closest_time }),
            None => None,
        }
    }
}

/// The state of a scan after `count` primitives depends on the first `count`
/// outcomes only.
proof fn lemma_scan_prefix<T>(
    time_max: T,
    outcomes: Seq<Option<T>>,
    extended: Seq<Option<T>>,
    count: int,
)
    requires
        0 <= count <= outcomes.len() <= extended.len(),
        forall|i: int| 0 <= i < outcomes.len() ==> outcomes[i] == extended[i],
    ensures
        closest_after(time_max, extended, count) == closest_after(time_max, outcomes, count),
        winner_after(extended, count) == winner_after(outcomes, count),
    decreases count,
{
    if count > 0 {
        lemma_scan_prefix(time_max, outcomes, extended, count - 1);
    }
}

/// After `count` primitives, either none reported a hit and the closest time
/// is still `time_max`, or the winner is the last that did, the closest time
/// is the time it reported, and no primitive after it reported a hit.
pub proof fn lemma_scan_state<T>(time_max: T, outcomes: Seq<Option<T>>, count: int)
    requires
        0 <= count <= outcomes.len(),
    ensures
        match winner_after(outcomes, count) {
            Some(index) => {
                &&& 0 <= index < count
                &&& outcomes[index] == Some(closest_after(time_max, outcomes, count))
                &&& forall|later: int|
                    index < later < count ==> {
                        &&& (#[trigger] outcomes[later]) is None
                        &&& closest_after(time_max, outcomes, later) == closest_after(
                            time_max,
                            outcomes,
                            count,
                        )
                    }
            },
            None => {
                &&& closest_after(time_max, outcomes, count) == time_max
                &&& forall|any: int| 0 <= any < count ==> (#[trigger] outcomes[any]) is None
            },
        },
    decreases count,
{
    if count > 0 {
        lemma_scan_state(time_max, outcomes, count - 1);
        if outcomes[count - 1] is None {
            match winner_after(outcomes, count - 1) {
                Some(index) => {
                    assert forall|later: int| index < later < count implies {
                        &&& (#[trigger] outcomes[later]) is None
                        &&& closest_after(time_max, outcomes, later) == closest_after(
                            time_max,
                            outcomes,
                            count,
                        )
                    } by {
                        if later < count - 1 {
                            assert(outcomes[later] is None);
                        }
                    }
                },
                None => {},
            }
        }
    }
}

/// A query that finds nothing asked every primitive about the whole interval
/// up to `time_max`, and each reported no hit.
pub proof fn lemma_scan_miss<S, M, T, F: Fn(&S, &T) -> Option<T>>(
    list: Seq<(S, M)>,
    probe: F,
    time_max: T,
    outcomes: Seq<Option<T>>,
)
    requires
        is_scan(list, probe, time_max, outcomes),
        winner_after(outcomes, list.len() as int) is None,
    ensures
        forall|i: int|
            0 <= i < list.len() ==> call_ensures(probe, (&#[trigger] list[i].0, &time_max), None::<T>),
{
    assert forall|i: int| 0 <= i < list.len() implies call_ensures(
        probe,
        (&#[trigger] list[i].0, &time_max),
        None::<T>,
    ) by {
        lemma_scan_state(time_max, outcomes, list.len() as int);
        assert(outcomes[i] is None);
        lemma_winner_prefix(outcomes, i, list.len() as int);
        lemma_scan_state(time_max, outcomes, i);
    }
}

/// A query that finds primitive `index` got the reported time from that
/// primitive, and every primitive after it was asked for a hit before that
/// time and reported none.
pub proof fn lemma_scan_hit<S, M, T, F: Fn(&S, &T) -> Option<T>>(
    list: Seq<(S, M)>,
    probe: F,
    time_max: T,
    outcomes: Seq<Option<T>>,
    index: int,
)
    requires
        is_scan(list, probe, time_max, outcomes),
        winner_after(outcomes, list.len() as int) == Some(index),
    ensures
        0 <= index < list.len(),
        call_ensures(
            probe,
            (&list[index].0, &closest_after(time_max, outcomes, index)),
            Some(closest_after(time_max, outcomes, list.len() as int)),
        ),
        forall|later: int|
            index < later < list.len() ==> call_ensures(
                probe,
                (&#[trigger] list[later].0, &closest_after(time_max, outcomes, list.len() as int)),
                None::<T>,
            ),
{
    lemma_scan_state(time_max, outcomes, list.len() as int);
    assert(outcomes[index] == Some(closest_after(time_max, outcomes, list.len() as int)));
    assert forall|later: int| index < later < list.len() implies call_ensures(
        probe,
        (&#[trigger] list[later].0, &closest_after(time_max, outcomes, list.len() as int)),
        None::<T>,
    ) by {
        assert(outcomes[later] is None);
    }
}

/// If the first `count` primitives have no winner, neither have fewer.
proof fn lemma_winner_prefix<T>(outcomes: Seq<Option<T>>, fewer: int, count: int)
    requires
        0 <= fewer <= count <= outcomes.len(),
        winner_after(outcomes, count) is None,
    ensures
        winner_after(outcomes, fewer) is None,
    decreases count,
{
    if fewer < count {
        lemma_winner_prefix(outcomes, fewer, count - 1);
    }
}

} // verus!
