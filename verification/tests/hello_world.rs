use profiler::{GlobalProfiler, Profiler, Scope};
use std::time::Instant;

fn wait_for(span: std::time::Duration) {
    let begin = Instant::now();
    while begin.elapsed() < span {
        std::hint::spin_loop();
    }
}

fn work(profiler: &mut Profiler) {
    let scope = Scope::new(profiler, "hello_world::work".to_string());
    wait_for(std::time::Duration::from_millis(10));
    scope.close(profiler).unwrap();
}

#[test]
fn simple() {
    let mut registry = GlobalProfiler::new();
    let mut profiler = Profiler::new();
    for _ in 0..10 {
        work(&mut profiler);

        profiler.submit_frame(&mut registry, 0, None).unwrap();
    }
    for _ in 0..10 {
        {
            let scope = Scope::new(&mut profiler, "hello_world::simple::scope_task".to_string());
            wait_for(std::time::Duration::from_millis(10));
            scope.close(&mut profiler).unwrap();
        }

        profiler.submit_frame(&mut registry, 0, None).unwrap();
    }
    let frames = &registry.thread_profilers[&0].frames;
    assert_eq!(frames.len(), 20);
    for (i, frame) in frames.iter().enumerate() {
        assert_eq!(frame.scope_results.len(), 1);
        let scope = &frame.scope_results[0];
        assert_eq!(scope.depth, 0);
        assert_eq!(
            scope.name,
            if i < 10 { "hello_world::work" } else { "hello_world::simple::scope_task" }
        );
        assert!(scope.duration >= profiler::Duration::from_millis(10));
        assert!(frame.duration >= scope.duration);
        assert!(scope.start >= frame.start);
    }
}

#[test]
fn custom() {
    let mut profiler = Profiler::new();

    for _ in 0..10 {
        {
            let scope = Scope::new(&mut profiler, "hello_world::custom::scope_task".to_string());
            wait_for(std::time::Duration::from_millis(10));
            scope.close(&mut profiler).unwrap();
        }
        profiler.new_frame().unwrap();
    }
    assert_eq!(profiler.frames().len(), 10);
    for frame in profiler.frames() {
        assert_eq!(frame.scope_results.len(), 1);
        assert_eq!(frame.scope_results[0].name, "hello_world::custom::scope_task");
        assert!(frame.scope_results[0].duration >= profiler::Duration::from_millis(10));
    }
}
