//! Choosing a graphics device and the queues to ask it for.

use vstd::prelude::*;

verus! {

/// Compute queues to ask for.
pub const TARGET_COMPUTE_CNT: usize = 2;

/// A family of queues that a device offers.
#[derive(Debug, Clone, Copy, PartialEq, Eq, Structural)]
pub struct QueueFamily {
    pub graphics: bool,
    pub compute: bool,
    pub queue_count: u32,
}

impl QueueFamily {
    /// The family has queues that compute.
    pub open spec fn computes(self) -> bool {
        self.compute && self.queue_count > 0
    }

    /// The family has queues that draw and do not compute.
    pub open spec fn only_draws(self) -> bool {
        self.graphics && !self.compute && self.queue_count > 0
    }
}

/// Queues to create in one family: some for computing and, after them, perhaps one for drawing.
#[derive(Debug, Clone, Copy, PartialEq, Eq, Structural)]
pub struct FamilyQueues {
    pub family: u32,
    pub compute: usize,
    pub graphics: bool,
}

pub open spec fn min2(a: int, b: int) -> int {
    if a <= b {
        a
    } else {
        b
    }
}

/// The compute queues to create in the families from `i` on but not in `skip`, when there are
/// `have` already: in order, all that a family has, until there are enough.
pub open spec fn compute_queues(
    families: Seq<QueueFamily>,
    skip: Option<int>,
    i: int,
    have: int,
) -> Seq<FamilyQueues>
    decreases families.len() - i,
{
    if i < 0 || i >= families.len() || have >= TARGET_COMPUTE_CNT {
        Seq::empty()
    } else if families[i].computes() && skip != Some(i) {
        let cnt = min2(families[i].queue_count as int, TARGET_COMPUTE_CNT - have);
        seq![FamilyQueues { family: i as u32, compute: cnt as usize, graphics: false }]
            + compute_queues(families, skip, i + 1, have + cnt)
    } else {
        compute_queues(families, skip, i + 1, have)
    }
}

/// How many compute queues there are in the plan.
pub open spec fn total_compute(plan: Seq<FamilyQueues>) -> int
    decreases plan.len(),
{
    if plan.len() == 0 {
        0
    } else {
        total_compute(plan.drop_last()) + plan.last().compute
    }
}

/// `r` is the first family with the property, if there is one.
pub open spec fn is_first_family(
    families: Seq<QueueFamily>,
    p: spec_fn(QueueFamily) -> bool,
    r: Option<int>,
) -> bool {
    match r {
        Some(i) => 0 <= i < families.len() && p(families[i]) && forall|j: int|
            0 <= j < i ==> !p(#[trigger] families[j]),
        None => forall|j: int| 0 <= j < families.len() ==> !p(#[trigger] families[j]),
    }
}

/// The family that draws: the first that does nothing else, or else the first that computes too.
pub open spec fn graphics_family(families: Seq<QueueFamily>, r: Option<int>) -> bool {
    if exists|j: int| 0 <= j < families.len() && (#[trigger] families[j]).only_draws() {
        is_first_family(families, |f: QueueFamily| f.only_draws(), r)
    } else {
        is_first_family(families, |f: QueueFamily| f.computes() && f.graphics, r)
    }
}

/// The queues to create on a device whose drawing family is `g`: the compute queues, then those of
/// the drawing family, the one for drawing last. The drawing family, if it computes too, makes up
/// for what the others lack, but keeps one queue for drawing.
pub open spec fn queue_plan(families: Seq<QueueFamily>, g: int) -> Seq<FamilyQueues> {
    let first = compute_queues(families, Some(g), 0, 0);
    let more = if families[g].compute {
        min2(TARGET_COMPUTE_CNT - total_compute(first), families[g].queue_count - 1)
    } else {
        0
    };
    first.push(FamilyQueues { family: g as u32, compute: more as usize, graphics: true })
}

/// The device has both a family that computes and one that draws.
pub open spec fn has_queues(families: Seq<QueueFamily>) -> bool {
    &&& exists|j: int| 0 <= j < families.len() && (#[trigger] families[j]).computes()
    &&& exists|j: int|
        0 <= j < families.len() && (#[trigger] families[j]).graphics && families[j].queue_count > 0
}

proof fn lemma_total_push(plan: Seq<FamilyQueues>, q: FamilyQueues)
    ensures
        total_compute(plan.push(q)) == total_compute(plan) + q.compute,
{
    assert(plan.push(q).drop_last() =~= plan);
}

proof fn lemma_total_add(a: Seq<FamilyQueues>, b: Seq<FamilyQueues>)
    ensures
        total_compute(a + b) == total_compute(a) + total_compute(b),
    decreases b.len(),
{
    if b.len() == 0 {
        assert(a + b =~= a);
    } else {
        assert((a + b).drop_last() =~= a + b.drop_last());
        lemma_total_add(a, b.drop_last());
    }
}

/// What the compute queues from `i` on are.
proof fn lemma_compute_queues(families: Seq<QueueFamily>, skip: Option<int>, i: int, have: int)
    requires
        0 <= i <= families.len() <= u32::MAX,
        0 <= have <= TARGET_COMPUTE_CNT,
    ensures
        ({
            let plan = compute_queues(families, skip, i, have);
            &&& 0 <= total_compute(plan) <= TARGET_COMPUTE_CNT - have
            &&& forall|k: int|
                0 <= k < plan.len() ==> {
                    let e = #[trigger] plan[k];
                    &&& i <= e.family < families.len()
                    &&& families[e.family as int].computes()
                    &&& skip != Some(e.family as int)
                    &&& 0 < e.compute <= families[e.family as int].queue_count
                    &&& !e.graphics
                }
            &&& forall|k: int, l: int|
                0 <= k < l < plan.len() ==> (#[trigger] plan[k]).family < (#[trigger] plan[l]).family
        }),
    decreases families.len() - i,
{
    let plan = compute_queues(families, skip, i, have);
    if i < families.len() && have < TARGET_COMPUTE_CNT {
        if families[i].computes() && skip != Some(i) {
            let cnt = min2(families[i].queue_count as int, TARGET_COMPUTE_CNT - have);
            let head = seq![FamilyQueues { family: i as u32, compute: cnt as usize, graphics: false }];
            let rest = compute_queues(families, skip, i + 1, have + cnt);
            lemma_compute_queues(families, skip, i + 1, have + cnt);
            lemma_total_add(head, rest);
            lemma_total_push(Seq::empty(), head[0]);
            assert(Seq::empty().push(head[0]) =~= head);
            assert(plan == head + rest);
            assert forall|k: int| 0 < k < plan.len() implies #[trigger] plan[k] == rest[k - 1] by {}
        } else {
            lemma_compute_queues(families, skip, i + 1, have);
        }
    }
}

/// A plan asks a family for no more queues than it has, asks each family once, for at most the
/// target number of compute queues in all, and for one queue for drawing, which comes last. The
/// others come in the order of their families.
pub proof fn law_plan_fits(families: Seq<QueueFamily>, g: int)
    requires
        families.len() <= u32::MAX,
        graphics_family(families, Some(g)),
    ensures
        ({
            let plan = queue_plan(families, g);
            &&& plan.len() >= 1
            &&& plan.last().graphics
            &&& plan.last().family == g
            &&& families[g].graphics
            &&& total_compute(plan) <= TARGET_COMPUTE_CNT
            &&& forall|k: int|
                0 <= k < plan.len() ==> {
                    let e = #[trigger] plan[k];
                    &&& e.family < families.len()
                    &&& e.compute + (if e.graphics {
                        1int
                    } else {
                        0
                    }) <= families[e.family as int].queue_count
                    &&& e.compute > 0 ==> families[e.family as int].compute
                    &&& e.graphics == (k == plan.len() - 1)
                }
            &&& forall|k: int, l: int|
                0 <= k < l < plan.len() ==> (#[trigger] plan[k]).family != (#[trigger] plan[l]).family
            &&& forall|k: int, l: int|
                0 <= k < l < plan.len() - 1 ==> (#[trigger] plan[k]).family < (
                #[trigger] plan[l]).family
        }),
{
    let first = compute_queues(families, Some(g), 0, 0);
    lemma_compute_queues(families, Some(g), 0, 0);
    let plan = queue_plan(families, g);
    lemma_total_push(first, plan.last());
    assert forall|k: int| 0 <= k < first.len() implies #[trigger] plan[k] == first[k] by {}
}

/// The compute queues that families from `i` on have, the family `g` less the one for drawing.
pub open spec fn available(families: Seq<QueueFamily>, g: int, i: int) -> int
    decreases families.len() - i,
{
    if i < 0 || i >= families.len() {
        0
    } else {
        available(families, g, i + 1) + (if !families[i].computes() {
            0
        } else if i == g {
            families[i].queue_count - 1
        } else {
            families[i].queue_count as int
        })
    }
}

proof fn lemma_compute_queues_fill(families: Seq<QueueFamily>, g: int, i: int, have: int)
    requires
        0 <= i <= families.len() <= u32::MAX,
        0 <= g < families.len(),
        0 <= have <= TARGET_COMPUTE_CNT,
    ensures
        available(families, g, i) >= 0,
        total_compute(compute_queues(families, Some(g), i, have)) == min2(
            TARGET_COMPUTE_CNT - have,
            available(families, g, i) - (if i <= g && families[g].computes() {
                families[g].queue_count - 1
            } else {
                0
            }),
        ),
        available(families, g, i) - (if i <= g && families[g].computes() {
            families[g].queue_count - 1
        } else {
            0
        }) >= 0,
    decreases families.len() - i,
{
    if i < families.len() {
        if have >= TARGET_COMPUTE_CNT {
            lemma_compute_queues_fill(families, g, i + 1, have);
        } else if families[i].computes() && i != g {
            let cnt = min2(families[i].queue_count as int, TARGET_COMPUTE_CNT - have);
            let head = seq![FamilyQueues { family: i as u32, compute: cnt as usize, graphics: false }];
            let rest = compute_queues(families, Some(g), i + 1, have + cnt);
            lemma_compute_queues_fill(families, g, i + 1, have + cnt);
            lemma_total_add(head, rest);
            lemma_total_push(Seq::empty(), head[0]);
            assert(Seq::empty().push(head[0]) =~= head);
        } else {
            lemma_compute_queues_fill(families, g, i + 1, have);
        }
    }
}

/// A plan asks for as many compute queues as there are, up to the target.
pub proof fn law_plan_fills(families: Seq<QueueFamily>, g: int)
    requires
        families.len() <= u32::MAX,
        graphics_family(families, Some(g)),
    ensures
        total_compute(queue_plan(families, g)) == min2(
            TARGET_COMPUTE_CNT as int,
            available(families, g, 0),
        ),
{
    let first = compute_queues(families, Some(g), 0, 0);
    lemma_compute_queues_fill(families, g, 0, 0);
    lemma_compute_queues(families, Some(g), 0, 0);
    lemma_total_push(first, queue_plan(families, g).last());
}

/// The queues to create on a device, or nothing if it cannot both compute and draw.
pub fn plan_queues(families: &Vec<QueueFamily>) -> (r: Option<Vec<FamilyQueues>>)
    requires
        families@.len() <= u32::MAX,
    ensures
        r is Some <==> has_queues(families@),
        r matches Some(plan) ==> exists|g: int|
            graphics_family(families@, Some(g)) && plan@ == #[trigger] queue_plan(families@, g),
{
    let mut graphics_only: Option<usize> = None;
    let mut graphics_too: Option<usize> = None;
    let mut computes = false;
    let mut i: usize = 0;
    while i < families.len()
        invariant
            i <= families@.len() <= u32::MAX,
            match graphics_only {
                Some(g) => g < i && families@[g as int].only_draws() && forall|j: int|
                    0 <= j < g ==> !(#[trigger] families@[j]).only_draws(),
                None => forall|j: int| 0 <= j < i ==> !(#[trigger] families@[j]).only_draws(),
            },
            match graphics_too {
                Some(g) => g < i && families@[g as int].computes() && families@[g as int].graphics
                    && forall|j: int|
                    0 <= j < g ==> !((#[trigger] families@[j]).computes() && families@[j].graphics),
                None => forall|j: int|
                    0 <= j < i ==> !((#[trigger] families@[j]).computes() && families@[j].graphics),
            },
            computes == exists|j: int| 0 <= j < i && (#[trigger] families@[j]).computes(),
        decreases families@.len() - i,
    {
        let f = families[i];
        if f.queue_count > 0 {
            if f.compute {
                assert(families@[i as int].computes());
                computes = true;
                if f.graphics && graphics_too.is_none() {
                    graphics_too = Some(i);
                }
            } else if f.graphics && graphics_only.is_none() {
                graphics_only = Some(i);
            }
        }
        i = i + 1;
    }
    if !computes {
        return None;
    }
    let g: usize = match graphics_only {
        Some(g) => g,
        None => match graphics_too {
            Some(g) => g,
            None => {
                assert(!has_queues(families@)) by {
                    assert forall|j: int| 0 <= j < families@.len() implies !((
                    #[trigger] families@[j]).graphics && families@[j].queue_count > 0) by {
                        assert(!families@[j].only_draws());
                        assert(!(families@[j].computes() && families@[j].graphics));
                    }
                }
                return None;
            },
        },
    };
    let ghost gi = g as int;
    proof {
        assert(graphics_family(families@, Some(gi)));
        assert(families@[gi].graphics && families@[gi].queue_count > 0);
        lemma_compute_queues(families@, Some(gi), 0, 0);
    }
    let mut plan: Vec<FamilyQueues> = Vec::new();
    let mut have: usize = 0;
    let mut i: usize = 0;
    while i < families.len() && have < TARGET_COMPUTE_CNT
        invariant
            i <= families@.len() <= u32::MAX,
            have <= TARGET_COMPUTE_CNT,
            gi == g,
            have == total_compute(plan@),
            plan@ + compute_queues(families@, Some(gi), i as int, have as int) == compute_queues(
                families@,
                Some(gi),
                0,
                0,
            ),
        decreases families@.len() - i,
    {
        let f = families[i];
        let ghost before = plan@;
        let ghost rest = compute_queues(families@, Some(gi), i as int, have as int);
        if f.compute && f.queue_count > 0 && i != g {
            let left: usize = TARGET_COMPUTE_CNT - have;
            let cnt: usize = if (f.queue_count as u64) < left as u64 {
                f.queue_count as usize
            } else {
                left
            };
            let entry = FamilyQueues { family: i as u32, compute: cnt, graphics: false };
            plan.push(entry);
            proof {
                let tail = compute_queues(families@, Some(gi), i + 1, have + cnt);
                assert(rest == seq![entry] + tail);
                assert(before + rest =~= plan@ + tail);
                lemma_total_push(before, entry);
            }
            have = have + cnt;
        }
        i = i + 1;
    }
    proof {
        assert(plan@ + compute_queues(families@, Some(gi), i as int, have as int) =~= plan@);
    }
    let fg = families[g];
    let left: usize = TARGET_COMPUTE_CNT - have;
    let more: usize = if !fg.compute {
        0
    } else if ((fg.queue_count - 1) as u64) < left as u64 {
        (fg.queue_count - 1) as usize
    } else {
        left
    };
    plan.push(FamilyQueues { family: g as u32, compute: more, graphics: true });
    assert(plan@ == queue_plan(families@, gi));
    Some(plan)
}

/// What kind of device it is.
#[derive(Debug, Clone, Copy, PartialEq, Eq, Structural)]
pub enum DeviceKind {
    DiscreteGpu,
    IntegratedGpu,
    VirtualGpu,
    Cpu,
    Other,
    Unknown,
}

impl DeviceKind {
    /// Lower is better.
    pub open spec fn spec_rank(self) -> u32 {
        match self {
            DeviceKind::DiscreteGpu => 0,
            DeviceKind::IntegratedGpu => 1,
            DeviceKind::VirtualGpu => 2,
            DeviceKind::Cpu => 3,
            DeviceKind::Other => 4,
            DeviceKind::Unknown => 5,
        }
    }

    /// Lower is better.
    pub fn rank(&self) -> (r: u32)
        ensures
            r == self.spec_rank(),
    {
        match self {
            DeviceKind::DiscreteGpu => 0,
            DeviceKind::IntegratedGpu => 1,
            DeviceKind::VirtualGpu => 2,
            DeviceKind::Cpu => 3,
            DeviceKind::Other => 4,
            DeviceKind::Unknown => 5,
        }
    }
}

/// What matters of a device.
#[derive(Debug)]
pub struct DeviceInfo {
    /// It can show images in a window.
    pub swapchain: bool,
    /// Its shaders have double precision.
    pub shader_float64: bool,
    /// Its shaders can store to images of the extended formats.
    pub storage_image_extended_formats: bool,
    pub kind: DeviceKind,
    pub families: Vec<QueueFamily>,
}

impl DeviceInfo {
    /// The device can do what is needed.
    pub open spec fn suitable(self) -> bool {
        &&& self.swapchain
        &&& self.shader_float64
        &&& self.storage_image_extended_formats
        &&& has_queues(self.families@)
    }
}

/// `r` is the device to use: the first of the best kind among those that will do.
pub open spec fn chosen(devices: Seq<DeviceInfo>, r: Option<int>) -> bool {
    match r {
        Some(i) => {
            &&& 0 <= i < devices.len()
            &&& devices[i].suitable()
            &&& forall|j: int|
                0 <= j < devices.len() && (#[trigger] devices[j]).suitable() ==> {
                    let a = devices[i].kind.spec_rank();
                    let b = devices[j].kind.spec_rank();
                    a < b || a == b && i <= j
                }
        },
        None => forall|j: int| 0 <= j < devices.len() ==> !(#[trigger] devices[j]).suitable(),
    }
}

/// If a device will do, one is chosen that will do. It is no worse in kind: where there is a device of
/// its own, it is one; and so on down. Of those of the kind that is chosen it is the first.
pub proof fn law_chosen(devices: Seq<DeviceInfo>, r: Option<int>, j: int)
    requires
        chosen(devices, r),
        0 <= j < devices.len(),
        devices[j].suitable(),
    ensures
        r matches Some(i) && {
            &&& 0 <= i < devices.len()
            &&& devices[i].suitable()
            &&& devices[i].kind == devices[j].kind ==> i <= j
            &&& devices[j].kind is DiscreteGpu ==> devices[i].kind is DiscreteGpu
            &&& devices[j].kind is IntegratedGpu ==> devices[i].kind is DiscreteGpu
                || devices[i].kind is IntegratedGpu
            &&& devices[j].kind is VirtualGpu ==> !(devices[i].kind is Cpu || devices[i].kind is Other
                || devices[i].kind is Unknown)
            &&& devices[j].kind is Cpu ==> !(devices[i].kind is Other || devices[i].kind is Unknown)
            &&& devices[j].kind is Other ==> !(devices[i].kind is Unknown)
        },
{
}

/// The device to use and the queues to create on it: the first of the best kind among those that
/// can do what is needed.
pub fn choose_device(devices: &Vec<DeviceInfo>) -> (r: Option<(usize, Vec<FamilyQueues>)>)
    requires
        forall|i: int|
            0 <= i < devices@.len() ==> (#[trigger] devices@[i]).families@.len() <= u32::MAX,
    ensures
        match r {
            Some((i, plan)) => {
                &&& i < devices@.len()
                &&& devices@[i as int].suitable()
                &&& exists|g: int|
                    graphics_family(devices@[i as int].families@, Some(g)) && plan@
                        == #[trigger] queue_plan(devices@[i as int].families@, g)
                &&& forall|j: int|
                    0 <= j < devices@.len() && (#[trigger] devices@[j]).suitable() ==> {
                        let a = devices@[i as int].kind.spec_rank();
                        let b = devices@[j].kind.spec_rank();
                        a < b || a == b && i <= j
                    }
            },
            None => forall|j: int| 0 <= j < devices@.len() ==> !(#[trigger] devices@[j]).suitable(),
        },
        chosen(
            devices@,
            match r {
                Some((i, _)) => Some(i as int),
                None => None,
            },
        ),
{
    let mut best: Option<(usize, Vec<FamilyQueues>)> = None;
    let mut i: usize = 0;
    while i < devices.len()
        invariant
            i <= devices@.len(),
            forall|k: int|
                0 <= k < devices@.len() ==> (#[trigger] devices@[k]).families@.len() <= u32::MAX,
            match best {
                Some((b, plan)) => {
                    &&& b < i
                    &&& devices@[b as int].suitable()
                    &&& exists|g: int|
                        graphics_family(devices@[b as int].families@, Some(g)) && plan@
                            == #[trigger] queue_plan(devices@[b as int].families@, g)
                    &&& forall|j: int|
                        0 <= j < i && (#[trigger] devices@[j]).suitable() ==> {
                            let x = devices@[b as int].kind.spec_rank();
                            let y = devices@[j].kind.spec_rank();
                            x < y || x == y && b <= j
                        }
                },
                None => forall|j: int| 0 <= j < i ==> !(#[trigger] devices@[j]).suitable(),
            },
        decreases devices@.len() - i,
    {
        let d = &devices[i];
        if d.swapchain && d.shader_float64 && d.storage_image_extended_formats {
            if let Some(plan) = plan_queues(&d.families) {
                let better = match &best {
                    Some((b, _)) => d.kind.rank() < devices[*b].kind.rank(),
                    None => true,
                };
                if better {
                    best = Some((i, plan));
                }
            }
        }
        i = i + 1;
    }
    best
}

/// Which of the created queues draws and which compute: the last draws, the others compute. If
/// there is one only, it does both.
pub fn assign_queues(count: usize) -> (r: (usize, Vec<usize>))
    requires
        count > 0,
    ensures
        r.0 == count - 1,
        if count == 1 {
            r.1@ == seq![0usize]
        } else {
            r.1@ == Seq::new((count - 1) as nat, |i: int| i as usize)
        },
        r.1@.len() >= 1,
        forall|i: int| 0 <= i < r.1@.len() ==> #[trigger] r.1@[i] == i,
        forall|i: int| 0 <= i < r.1@.len() && count > 1 ==> #[trigger] r.1@[i] != r.0,
{
    let mut compute: Vec<usize> = Vec::new();
    let mut i: usize = 0;
    while i < count - 1
        invariant
            i <= count - 1,
            count > 0,
            compute@ == Seq::new(i as nat, |k: int| k as usize),
        decreases count - 1 - i,
    {
        compute.push(i);
        assert(compute@ =~= Seq::new((i + 1) as nat, |k: int| k as usize));
        i = i + 1;
    }
    if compute.is_empty() {
        compute.push(count - 1);
        assert(compute@ =~= seq![0usize]);
    }
    (count - 1, compute)
}

/// The family that draws is the first that does nothing else, if there is one, and else the first
/// that both draws and computes; either way it has queues. There is none just if no family with
/// queues draws. Which it is, is settled.
pub proof fn law_graphics_family(families: Seq<QueueFamily>, r: Option<int>, s: Option<int>, j: int)
    requires
        graphics_family(families, r),
        graphics_family(families, s),
        0 <= j < families.len(),
        families[j].graphics,
        families[j].queue_count > 0,
    ensures
        r == s,
        r matches Some(g) && {
            &&& 0 <= g < families.len()
            &&& families[g].graphics
            &&& families[g].queue_count > 0
            &&& !families[j].compute ==> !families[g].compute && g <= j
            &&& families[g].compute ==> g <= j
        },
{
    assert(families[j].only_draws() || families[j].computes());
}

/// A device will do just if it can show images, has what the shaders need, and has queues of some
/// family that computes and queues of some family that draws.
pub proof fn law_suitable(d: DeviceInfo, e: DeviceInfo)
    requires
        e.families@ == d.families@,
        e.swapchain == d.swapchain,
        e.shader_float64 == d.shader_float64,
        e.storage_image_extended_formats == d.storage_image_extended_formats,
    ensures
        d.suitable() == e.suitable(),
        d.suitable() ==> d.swapchain && d.shader_float64 && d.storage_image_extended_formats,
        d.swapchain && d.shader_float64 && d.storage_image_extended_formats ==> (d.suitable() <==> {
            &&& exists|i: int|
                0 <= i < d.families@.len() && (#[trigger] d.families@[i]).compute
                    && d.families@[i].queue_count > 0
            &&& exists|i: int|
                0 <= i < d.families@.len() && (#[trigger] d.families@[i]).graphics
                    && d.families@[i].queue_count > 0
        }),
{
    if exists|i: int|
        0 <= i < d.families@.len() && (#[trigger] d.families@[i]).compute
            && d.families@[i].queue_count > 0 {
        let i = choose|i: int|
            0 <= i < d.families@.len() && (#[trigger] d.families@[i]).compute
                && d.families@[i].queue_count > 0;
        assert(d.families@[i].computes());
    }
}

/// A device of its own is better than one that shares memory, that than a virtual one, that than a
/// processor, and that than anything else; what is not known comes last.
pub proof fn law_ranks(k: DeviceKind)
    ensures
        k is DiscreteGpu || DeviceKind::DiscreteGpu.spec_rank() < k.spec_rank(),
        k is DiscreteGpu || k is IntegratedGpu || DeviceKind::IntegratedGpu.spec_rank() < k.spec_rank(),
        k is Cpu || k is Other || k is Unknown ==> DeviceKind::VirtualGpu.spec_rank() < k.spec_rank(),
        k is Other || k is Unknown ==> DeviceKind::Cpu.spec_rank() < k.spec_rank(),
        k is Unknown || k.spec_rank() < DeviceKind::Unknown.spec_rank(),
{
}

/// What of a family is not asked for among the compute queues from `i` on is not needed.
proof fn lemma_compute_queues_greedy(
    families: Seq<QueueFamily>,
    skip: Option<int>,
    i: int,
    have: int,
    f: int,
)
    requires
        0 <= i <= f < families.len() <= u32::MAX,
        0 <= have <= TARGET_COMPUTE_CNT,
        families[f].compute,
        families[f].queue_count > 0,
        skip != Some(f),
    ensures
        ({
            let plan = compute_queues(families, skip, i, have);
            ||| exists|k: int|
                0 <= k < plan.len() && (#[trigger] plan[k]).family == f && plan[k].compute
                    == families[f].queue_count
            ||| have + total_compute(plan) == TARGET_COMPUTE_CNT && forall|k: int|
                0 <= k < plan.len() ==> (#[trigger] plan[k]).family <= f
        }),
    decreases families.len() - i,
{
    let plan = compute_queues(families, skip, i, have);
    if have < TARGET_COMPUTE_CNT {
        if families[i].computes() && skip != Some(i) {
            let cnt = min2(families[i].queue_count as int, TARGET_COMPUTE_CNT - have);
            let head = seq![FamilyQueues { family: i as u32, compute: cnt as usize, graphics: false }];
            let rest = compute_queues(families, skip, i + 1, have + cnt);
            assert(plan == head + rest);
            lemma_total_add(head, rest);
            lemma_total_push(Seq::empty(), head[0]);
            assert(Seq::empty().push(head[0]) =~= head);
            assert(plan[0] == head[0]);
            assert forall|k: int| 0 < k < plan.len() implies #[trigger] plan[k] == rest[k - 1] by {}
            if i == f {
                if cnt < families[i].queue_count {
                    assert(rest.len() == 0);
                }
            } else {
                lemma_compute_queues_greedy(families, skip, i + 1, have + cnt, f);
                if exists|k: int|
                    0 <= k < rest.len() && (#[trigger] rest[k]).family == f && rest[k].compute
                        == families[f].queue_count {
                    let k = choose|k: int|
                        0 <= k < rest.len() && (#[trigger] rest[k]).family == f && rest[k].compute
                            == families[f].queue_count;
                    assert(plan[k + 1] == rest[k]);
                }
            }
        } else {
            lemma_compute_queues_greedy(families, skip, i + 1, have, f);
        }
    }
}

/// A plan asks the families in order for all the compute queues that they have, until it has two: one
/// that it asks for fewer, or passes over, comes after families that gave it two already. The family
/// that draws makes up for what is still lacking, but for one queue.
pub proof fn law_plan_in_order(families: Seq<QueueFamily>, g: int, f: int)
    requires
        families.len() <= u32::MAX,
        graphics_family(families, Some(g)),
        0 <= f < families.len(),
        families[f].compute,
        families[f].queue_count > 0,
    ensures
        ({
            let plan = queue_plan(families, g);
            &&& f != g ==> {
                ||| exists|k: int|
                    0 <= k < plan.len() - 1 && (#[trigger] plan[k]).family == f && plan[k].compute
                        == families[f].queue_count
                ||| total_compute(plan) == 2 && plan.last().compute == 0 && forall|k: int|
                    0 <= k < plan.len() - 1 ==> (#[trigger] plan[k]).family <= f
            }
            &&& f == g ==> plan.last().compute == families[g].queue_count - 1 || total_compute(plan)
                == 2
        }),
{
    let first = compute_queues(families, Some(g), 0, 0);
    let plan = queue_plan(families, g);
    lemma_compute_queues(families, Some(g), 0, 0);
    lemma_total_push(first, plan.last());
    assert forall|k: int| 0 <= k < first.len() implies #[trigger] plan[k] == first[k] by {}
    if f != g {
        lemma_compute_queues_greedy(families, Some(g), 0, 0, f);
        if exists|k: int|
            0 <= k < first.len() && (#[trigger] first[k]).family == f && first[k].compute
                == families[f].queue_count {
            let k = choose|k: int|
                0 <= k < first.len() && (#[trigger] first[k]).family == f && first[k].compute
                    == families[f].queue_count;
            assert(plan[k] == first[k]);
        }
    }
}

} // verus!
