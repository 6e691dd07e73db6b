use libraytracer::raytracer::{
    bounce_count, first_hit, render_region, threads_for, BlendWeights, RayTracer,
};

fn blend(old: f32, sample: f32, weights: BlendWeights) -> f32 {
    let factor_new = 1.0 / weights.total_frames as f32;
    let factor_old = weights.old_frames as f32 / weights.total_frames as f32;
    old * factor_old + sample * factor_new
}

#[test]
fn new_engine_is_empty_and_unrendered() {
    let tracer: RayTracer<u8, f32> = RayTracer::new((4, 3), 0.0);
    assert_eq!(tracer.frames_rendered(), 0);
    assert_eq!(tracer.image().dimensions(), (4, 3));
    assert!(tracer.thread_count() >= 1);
}

#[test]
fn threads_for_keeps_core_count_in_range() {
    assert_eq!(threads_for(0), 1);
    assert_eq!(threads_for(1), 1);
    assert_eq!(threads_for(8), 8);
    assert_eq!(threads_for(u32::MAX as usize), u32::MAX);
}

#[test]
fn with_threads_takes_the_given_count() {
    let tracer: RayTracer<u8, u8> = RayTracer::with_threads((2, 2), 0, 3);
    assert_eq!(tracer.thread_count(), 3);
}

#[test]
fn entities_keep_insertion_order() {
    let mut tracer: RayTracer<i32, u8> = RayTracer::with_threads((1, 1), 0, 1);
    tracer.add_entity(10);
    tracer.add_entity(20);
    tracer.add_entity(30);
    *tracer.entity_mut(1) += 5;
    let seen = std::cell::RefCell::new(Vec::new());
    tracer.render(&|scene: &Vec<i32>, _, v, _| {
        seen.borrow_mut().clear();
        seen.borrow_mut().extend(scene.iter().copied());
        v
    });
    assert_eq!(*seen.borrow(), vec![10, 25, 30]);
}

#[test]
fn render_counts_passes_and_clear_resets() {
    let mut tracer: RayTracer<u8, u8> = RayTracer::with_threads((2, 2), 0, 2);
    tracer.render(&|_: &Vec<u8>, _, v, _| v);
    tracer.render(&|_: &Vec<u8>, _, v, _| v);
    assert_eq!(tracer.frames_rendered(), 2);
    tracer.clear_image();
    assert_eq!(tracer.frames_rendered(), 0);
}

#[test]
fn render_hands_each_pixel_its_coordinate_and_value() {
    let mut tracer: RayTracer<u8, (usize, usize, u32)> =
        RayTracer::with_threads((3, 2), (9, 9, 0), 2);
    tracer.render(&|_: &Vec<u8>, c: (usize, usize), v: (usize, usize, u32), _| (c.0, c.1, v.2 + 1));
    for y in 0..2 {
        for x in 0..3 {
            assert_eq!(*tracer.image().index((x, y)), (x, y, 1));
        }
    }
}

#[test]
fn render_weights_follow_the_frame_counter() {
    let mut tracer: RayTracer<u8, (u64, u64)> = RayTracer::with_threads((2, 1), (7, 7), 1);
    tracer.render(&|_: &Vec<u8>, _, _, w: BlendWeights| (w.old_frames, w.total_frames));
    assert_eq!(*tracer.image().index((0, 0)), (0, 1));
    tracer.render(&|_: &Vec<u8>, _, _, w: BlendWeights| (w.old_frames, w.total_frames));
    assert_eq!(*tracer.image().index((1, 0)), (1, 2));
    tracer.render(&|_: &Vec<u8>, _, _, w: BlendWeights| (w.old_frames, w.total_frames));
    assert_eq!(*tracer.image().index((0, 0)), (2, 3));
}

#[test]
fn first_pass_after_clear_is_the_raw_sample() {
    let mut tracer: RayTracer<u8, f32> = RayTracer::with_threads((3, 3), 0.25, 2);
    for _ in 0..4 {
        tracer.render(&|_: &Vec<u8>, _, v, w| blend(v, 0.5, w));
    }
    tracer.clear_image();
    assert_eq!(*tracer.image().index((1, 1)), 0.5);
    tracer.render(&|_: &Vec<u8>, c: (usize, usize), v, w| blend(v, (c.0 + 3 * c.1) as f32, w));
    for y in 0..3 {
        for x in 0..3 {
            assert_eq!(*tracer.image().index((x, y)), (x + 3 * y) as f32);
        }
    }
}

#[test]
fn repeated_passes_keep_the_running_mean() {
    let mut tracer: RayTracer<u8, f32> = RayTracer::with_threads((1, 1), 100.0, 1);
    let samples = [4.0f32, 8.0, 0.0, 4.0];
    for s in samples {
        tracer.render(&|_: &Vec<u8>, _, v, w| blend(v, s, w));
    }
    assert_eq!(*tracer.image().index((0, 0)), 4.0);
}

#[test]
fn begin_render_splits_the_buffer_among_the_workers() {
    let mut tracer: RayTracer<u8, u32> = RayTracer::with_threads((5, 4), 0, 3);
    tracer.add_entity(1);
    {
        let mut pass = tracer.begin_render();
        assert_eq!(pass.weights, BlendWeights { old_frames: 0, total_frames: 1 });
        assert_eq!(pass.entities.len(), 1);
        let mut sizes = Vec::new();
        while let Some(run) = pass.chunks.next() {
            sizes.push(run.cells.len());
            render_region(run, pass.entities, pass.weights, &|_: &Vec<u8>, _, v, _| v + 1);
        }
        assert_eq!(sizes, vec![7, 7, 6]);
    }
    assert_eq!(tracer.frames_rendered(), 1);
    for y in 0..4 {
        for x in 0..5 {
            assert_eq!(*tracer.image().index((x, y)), 1);
        }
    }
}

#[test]
fn first_hit_takes_the_first_in_list_order() {
    let distances = vec![None, Some(9.0f32), Some(1.0f32)];
    let hit = first_hit(&distances, |d: &Option<f32>| *d);
    assert_eq!(hit, Some((1, 9.0)));
}

#[test]
fn first_hit_stops_probing_after_a_hit() {
    let probed = std::cell::Cell::new(0);
    let entities = vec![false, true, true, true];
    let hit = first_hit(&entities, |e: &bool| {
        probed.set(probed.get() + 1);
        if *e {
            Some(())
        } else {
            None
        }
    });
    assert_eq!(hit, Some((1, ())));
    assert_eq!(probed.get(), 2);
}

#[test]
fn first_hit_misses_when_every_probe_misses() {
    let entities = vec![1, 2, 3];
    let hit: Option<(usize, u8)> = first_hit(&entities, |_: &i32| None);
    assert_eq!(hit, None);
    let none: Vec<i32> = Vec::new();
    let hit: Option<(usize, u8)> = first_hit(&none, |_: &i32| Some(1));
    assert_eq!(hit, None);
}

#[test]
fn bounces_stop_at_the_maximum_depth() {
    assert_eq!(bounce_count(0, 5, 8), 8);
    assert_eq!(bounce_count(4, 5, 2), 2);
    assert_eq!(bounce_count(5, 5, 8), 0);
    assert_eq!(bounce_count(9, 5, 8), 0);
    assert_eq!(bounce_count(0, 0, 8), 0);
}

#[test]
fn a_pass_is_shared_among_exactly_the_workers() {
    let mut tracer: RayTracer<u8, u32> = RayTracer::with_threads((5, 2), 0, 6);
    let mut pass = tracer.begin_render();
    let mut sizes = Vec::new();
    while let Some(run) = pass.chunks.next() {
        sizes.push(run.cells.len());
    }
    assert_eq!(sizes, vec![2, 2, 2, 2, 1, 1]);
}
