use reactive_core::runtime::{NodeId, Runtime, RuntimeError};

fn read_value(rt: &mut Runtime<i64>, node: NodeId) -> i64 {
    *rt.read(node).unwrap().unwrap()
}

#[test]
fn conditional_dependency_is_dropped() {
    let mut rt: Runtime<i64> = Runtime::new(10);
    let root = rt.root_scope();
    let cond = rt.create_signal(root, 1).unwrap();
    let a = rt.create_signal(root, 5).unwrap();
    let effect = rt.create_effect(root).unwrap();
    let mut runs = 0;
    let mut flush = |rt: &mut Runtime<i64>, runs: &mut i32| loop {
        let pass = rt.take_pass().unwrap();
        if pass.is_empty() {
            break;
        }
        for id in pass {
            assert_eq!(id, effect);
            rt.begin_run(id).unwrap();
            if read_value(rt, cond) != 0 {
                read_value(rt, a);
            }
            rt.end_run(id).unwrap();
            *runs += 1;
        }
    };
    flush(&mut rt, &mut runs);
    assert_eq!(runs, 1);
    rt.write(a, 6).unwrap();
    flush(&mut rt, &mut runs);
    assert_eq!(runs, 2);
    rt.write(cond, 0).unwrap();
    flush(&mut rt, &mut runs);
    assert_eq!(runs, 3);
    rt.write(a, 7).unwrap();
    flush(&mut rt, &mut runs);
    assert_eq!(runs, 3);
    rt.write(cond, 1).unwrap();
    flush(&mut rt, &mut runs);
    assert_eq!(runs, 4);
}

#[test]
fn one_write_runs_each_dependent_once() {
    let mut rt: Runtime<i64> = Runtime::new(10);
    let root = rt.root_scope();
    let x = rt.create_signal(root, 1).unwrap();
    let y = rt.create_effect(root).unwrap();
    let z = rt.create_effect(root).unwrap();
    let mut y_runs = 0;
    let mut z_runs = 0;
    let mut passes = 0;
    let mut first = true;
    loop {
        let pass = rt.take_pass().unwrap();
        if pass.is_empty() {
            break;
        }
        if first {
            assert_eq!(pass, vec![y, z]);
            first = false;
        }
        for id in pass {
            rt.begin_run(id).unwrap();
            read_value(&mut rt, x);
            rt.end_run(id).unwrap();
        }
    }
    rt.write(x, 2).unwrap();
    loop {
        let pass = rt.take_pass().unwrap();
        if pass.is_empty() {
            break;
        }
        passes += 1;
        for id in pass {
            rt.begin_run(id).unwrap();
            read_value(&mut rt, x);
            rt.end_run(id).unwrap();
            if id == y {
                y_runs += 1;
            }
            if id == z {
                z_runs += 1;
            }
        }
    }
    assert_eq!(passes, 1);
    assert_eq!(y_runs, 1);
    assert_eq!(z_runs, 1);
}

#[test]
fn memo_recomputes_only_when_read() {
    let mut rt: Runtime<i64> = Runtime::new(10);
    let root = rt.root_scope();
    let a = rt.create_signal(root, 3).unwrap();
    let memo = rt.create_memo(root).unwrap();
    let mut computations = 0;
    let mut get = |rt: &mut Runtime<i64>, computations: &mut i32| -> i64 {
        if let Some(v) = rt.read(memo).unwrap() {
            return *v;
        }
        rt.begin_run(memo).unwrap();
        let doubled = read_value(rt, a) * 2;
        *computations += 1;
        rt.end_memo(memo, doubled).unwrap();
        *rt.read(memo).unwrap().unwrap()
    };
    assert_eq!(get(&mut rt, &mut computations), 6);
    assert_eq!(get(&mut rt, &mut computations), 6);
    assert_eq!(computations, 1);
    rt.write(a, 4).unwrap();
    rt.write(a, 5).unwrap();
    assert!(rt.take_pass().unwrap().is_empty());
    assert_eq!(computations, 1);
    assert_eq!(get(&mut rt, &mut computations), 10);
    assert_eq!(computations, 2);
}

#[test]
fn effect_reading_memo_reruns_after_its_source_changes() {
    let mut rt: Runtime<i64> = Runtime::new(10);
    let root = rt.root_scope();
    let a = rt.create_signal(root, 1).unwrap();
    let memo = rt.create_memo(root).unwrap();
    let effect = rt.create_effect(root).unwrap();
    let mut seen: Vec<i64> = Vec::new();
    for round in 0..2 {
        if round == 1 {
            rt.write(a, 2).unwrap();
        }
        loop {
            let pass = rt.take_pass().unwrap();
            if pass.is_empty() {
                break;
            }
            for id in pass {
                assert_eq!(id, effect);
                rt.begin_run(id).unwrap();
                let value = match rt.read(memo).unwrap() {
                    Some(v) => *v,
                    None => {
                        rt.begin_run(memo).unwrap();
                        let v = read_value(&mut rt, a) + 100;
                        rt.end_memo(memo, v).unwrap();
                        v
                    }
                };
                rt.end_run(id).unwrap();
                seen.push(value);
            }
        }
    }
    assert_eq!(seen, vec![101, 102]);
}

#[test]
fn equal_value_write_still_propagates() {
    let mut rt: Runtime<i64> = Runtime::new(10);
    let root = rt.root_scope();
    let s = rt.create_signal(root, 1).unwrap();
    let e = rt.create_effect(root).unwrap();
    let pass = rt.take_pass().unwrap();
    assert_eq!(pass, vec![e]);
    rt.begin_run(e).unwrap();
    read_value(&mut rt, s);
    rt.end_run(e).unwrap();
    assert!(rt.take_pass().unwrap().is_empty());
    rt.write(s, 1).unwrap();
    assert_eq!(rt.take_pass().unwrap(), vec![e]);
    assert_eq!(rt.version(s), Some(1));
}

#[test]
fn self_writing_effect_is_a_cycle() {
    let mut rt: Runtime<i64> = Runtime::new(3);
    let root = rt.root_scope();
    let s = rt.create_signal(root, 0).unwrap();
    let _e = rt.create_effect(root).unwrap();
    let mut outcome = Ok(());
    for _ in 0..10 {
        match rt.take_pass() {
            Ok(pass) => {
                if pass.is_empty() {
                    break;
                }
                for id in pass {
                    rt.begin_run(id).unwrap();
                    let v = read_value(&mut rt, s);
                    rt.end_run(id).unwrap();
                    rt.write(s, v + 1).unwrap();
                }
            }
            Err(err) => {
                outcome = Err(err);
                break;
            }
        }
    }
    assert_eq!(outcome, Err(RuntimeError::PropagationCycle));
    assert_eq!(read_value(&mut rt, s), 3);
}

#[test]
fn disposed_scope_stops_everything_inside() {
    let mut rt: Runtime<i64> = Runtime::new(10);
    let root = rt.root_scope();
    let outer = rt.create_scope(root).unwrap();
    let inner = rt.create_scope(outer).unwrap();
    let source = rt.create_signal(root, 1).unwrap();
    let local = rt.create_signal(inner, 2).unwrap();
    let e = rt.create_effect(inner).unwrap();
    let pass = rt.take_pass().unwrap();
    assert_eq!(pass, vec![e]);
    rt.begin_run(e).unwrap();
    read_value(&mut rt, source);
    rt.end_run(e).unwrap();
    assert!(rt.take_pass().unwrap().is_empty());
    rt.dispose(outer).unwrap();
    assert!(!rt.is_alive(e));
    assert!(!rt.is_alive(local));
    assert!(rt.is_alive(source));
    rt.write(source, 5).unwrap();
    assert!(rt.take_pass().unwrap().is_empty());
    assert_eq!(rt.read(local).err(), Some(RuntimeError::UseAfterDispose));
    assert_eq!(rt.write(local, 3), Err(RuntimeError::UseAfterDispose));
    assert_eq!(rt.create_signal(inner, 0).err(), Some(RuntimeError::UseAfterDispose));
    assert_eq!(rt.dispose(inner), Err(RuntimeError::UseAfterDispose));
}

#[test]
fn misuse_of_handles_is_reported() {
    let mut rt: Runtime<i64> = Runtime::new(10);
    let root = rt.root_scope();
    let s = rt.create_signal(root, 1).unwrap();
    let e = rt.create_effect(root).unwrap();
    assert_eq!(rt.end_run(e), Err(RuntimeError::InvalidHandle));
    assert_eq!(rt.begin_run(s), Err(RuntimeError::InvalidHandle));
    assert_eq!(rt.write(e, 1), Err(RuntimeError::InvalidHandle));
    assert_eq!(rt.read(e).err(), Some(RuntimeError::InvalidHandle));
    assert_eq!(rt.write(NodeId { index: 99 }, 1), Err(RuntimeError::InvalidHandle));
    rt.begin_run(e).unwrap();
    assert_eq!(rt.end_memo(e, 4), Err(RuntimeError::InvalidHandle));
    assert_eq!(rt.end_run(e), Ok(()));
}

#[test]
fn context_is_found_through_enclosing_scopes() {
    let mut rt: Runtime<i64> = Runtime::new(10);
    let root = rt.root_scope();
    let layout = rt.create_scope(root).unwrap();
    let content = rt.create_scope(layout).unwrap();
    let button = rt.create_scope(content).unwrap();
    assert_eq!(rt.use_context(button, 1).unwrap(), None);
    rt.provide_context(root, 1, 10).unwrap();
    rt.provide_context(layout, 2, 20).unwrap();
    assert_eq!(rt.use_context(button, 1).unwrap(), Some(&10));
    assert_eq!(rt.use_context(button, 2).unwrap(), Some(&20));
    assert_eq!(rt.use_context(root, 2).unwrap(), None);
    rt.provide_context(content, 1, 11).unwrap();
    assert_eq!(rt.use_context(button, 1).unwrap(), Some(&11));
    assert_eq!(rt.use_context(layout, 1).unwrap(), Some(&10));
    rt.provide_context(content, 1, 12).unwrap();
    assert_eq!(rt.use_context(button, 1).unwrap(), Some(&12));
    rt.dispose(content).unwrap();
    assert_eq!(rt.use_context(button, 1).err(), Some(RuntimeError::UseAfterDispose));
    assert_eq!(rt.provide_context(button, 3, 0), Err(RuntimeError::UseAfterDispose));
}

#[test]
fn update_applies_function_and_propagates() {
    let mut rt: Runtime<i64> = Runtime::new(10);
    let root = rt.root_scope();
    let count = rt.create_signal(root, 0).unwrap();
    let e = rt.create_effect(root).unwrap();
    assert_eq!(rt.take_pass().unwrap(), vec![e]);
    rt.begin_run(e).unwrap();
    read_value(&mut rt, count);
    rt.end_run(e).unwrap();
    assert!(rt.take_pass().unwrap().is_empty());
    rt.update(count, |n| n + 1).unwrap();
    rt.update(count, |n| n + 1).unwrap();
    assert_eq!(read_value(&mut rt, count), 2);
    assert_eq!(rt.take_pass().unwrap(), vec![e]);
    assert_eq!(rt.update(e, |n| n), Err(RuntimeError::InvalidHandle));
}
