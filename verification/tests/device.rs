use fractal_tiles::device::{
    assign_queues, choose_device, plan_queues, DeviceInfo, DeviceKind, FamilyQueues, QueueFamily,
};

fn family(graphics: bool, compute: bool, queue_count: u32) -> QueueFamily {
    QueueFamily { graphics, compute, queue_count }
}

fn queues(family: u32, compute: usize, graphics: bool) -> FamilyQueues {
    FamilyQueues { family, compute, graphics }
}

#[test]
fn one_family_with_many_queues_does_it_all() {
    let families = vec![family(true, true, 16)];
    assert_eq!(plan_queues(&families), Some(vec![queues(0, 2, true)]));
}

#[test]
fn one_family_keeps_a_queue_for_drawing() {
    assert_eq!(plan_queues(&vec![family(true, true, 2)]), Some(vec![queues(0, 1, true)]));
    assert_eq!(plan_queues(&vec![family(true, true, 1)]), Some(vec![queues(0, 0, true)]));
}

#[test]
fn separate_compute_families_come_first() {
    let families = vec![family(true, true, 4), family(false, true, 1), family(false, true, 8)];
    assert_eq!(
        plan_queues(&families),
        Some(vec![queues(1, 1, false), queues(2, 1, false), queues(0, 0, true)])
    );
    let families = vec![family(true, true, 4), family(false, true, 1)];
    assert_eq!(plan_queues(&families), Some(vec![queues(1, 1, false), queues(0, 1, true)]));
}

#[test]
fn a_family_that_only_draws_is_preferred_for_drawing() {
    let families = vec![family(true, true, 1), family(true, false, 3), family(false, true, 5)];
    assert_eq!(
        plan_queues(&families),
        Some(vec![queues(0, 1, false), queues(2, 1, false), queues(1, 0, true)])
    );
}

#[test]
fn a_device_must_compute_and_draw() {
    assert_eq!(plan_queues(&vec![]), None);
    assert_eq!(plan_queues(&vec![family(true, false, 1)]), None);
    assert_eq!(plan_queues(&vec![family(false, true, 1)]), None);
    assert_eq!(plan_queues(&vec![family(true, true, 0)]), None);
    assert_eq!(plan_queues(&vec![family(true, false, 0), family(false, true, 1)]), None);
    assert!(plan_queues(&vec![family(true, false, 1), family(false, true, 1)]).is_some());
}

#[test]
fn plans_stay_within_what_the_families_have() {
    for a in 0..4 {
        for b in 0..4 {
            for bits in 0..16 {
                let families = vec![
                    family(bits & 1 != 0, bits & 2 != 0, a),
                    family(bits & 4 != 0, bits & 8 != 0, b),
                ];
                if let Some(plan) = plan_queues(&families) {
                    let total: usize = plan.iter().map(|q| q.compute).sum();
                    let available: u32 = families
                        .iter()
                        .enumerate()
                        .filter(|(_, f)| f.compute)
                        .map(|(i, f)| {
                            let draws = plan.last().unwrap().family == i as u32;
                            f.queue_count - u32::from(draws)
                        })
                        .sum();
                    assert_eq!(total, available.min(2) as usize);
                    for (k, q) in plan.iter().enumerate() {
                        assert_eq!(q.graphics, k == plan.len() - 1);
                        let asked = q.compute as u32 + u32::from(q.graphics);
                        assert!(asked <= families[q.family as usize].queue_count);
                    }
                }
            }
        }
    }
}

fn device(kind: DeviceKind) -> DeviceInfo {
    DeviceInfo {
        swapchain: true,
        shader_float64: true,
        storage_image_extended_formats: true,
        kind,
        families: vec![family(true, true, 4)],
    }
}

#[test]
fn the_first_device_of_the_best_kind_is_used() {
    let devices = vec![
        device(DeviceKind::Cpu),
        device(DeviceKind::IntegratedGpu),
        device(DeviceKind::IntegratedGpu),
        device(DeviceKind::VirtualGpu),
    ];
    assert_eq!(choose_device(&devices), Some((1, vec![queues(0, 2, true)])));
}

#[test]
fn unsuitable_devices_are_passed_over() {
    let mut devices = vec![
        device(DeviceKind::DiscreteGpu),
        device(DeviceKind::DiscreteGpu),
        device(DeviceKind::DiscreteGpu),
        device(DeviceKind::DiscreteGpu),
        device(DeviceKind::Other),
        device(DeviceKind::Unknown),
    ];
    devices[0].swapchain = false;
    devices[1].shader_float64 = false;
    devices[2].storage_image_extended_formats = false;
    devices[3].families = vec![family(true, false, 4)];
    assert_eq!(choose_device(&devices).map(|(i, _)| i), Some(4));
    devices.truncate(4);
    assert_eq!(choose_device(&devices), None);
}

#[test]
fn kinds_are_ranked() {
    let kinds = [
        DeviceKind::DiscreteGpu,
        DeviceKind::IntegratedGpu,
        DeviceKind::VirtualGpu,
        DeviceKind::Cpu,
        DeviceKind::Other,
        DeviceKind::Unknown,
    ];
    for (i, kind) in kinds.iter().enumerate() {
        assert_eq!(kind.rank(), i as u32);
    }
}

#[test]
fn the_last_queue_draws() {
    assert_eq!(assign_queues(1), (0, vec![0]));
    assert_eq!(assign_queues(2), (1, vec![0]));
    assert_eq!(assign_queues(3), (2, vec![0, 1]));
}
