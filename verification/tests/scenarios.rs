use drone_commander::drone::{BarrierPoll, Drone};
use drone_commander::registry::{Action, Barrier, Registry};
use drone_commander::script::parse_script;

/// What a run left behind: what each drone got on the wire, in order, and
/// what the interpreter did besides.
struct Run {
    wire: Vec<Vec<String>>,
    slept: Vec<u64>,
    barriers: usize,
    trace: Vec<String>,
}

fn two_drones() -> Registry {
    let mut registry = Registry::new();
    registry.add(Drone::connect("0.0.0.0:8889"));
    registry.add(Drone::connect("0.0.0.0:8890"));
    registry
}

/// One turn of every sender: each transmits the head of its queue.
fn send_round(registry: &mut Registry, run: &mut Run) {
    for i in 0..registry.len() {
        if let Some(command) = registry.next_to_send(i) {
            assert!(command.payload().iter().all(|b| b.is_ascii_alphanumeric() || *b == b' '));
            run.trace.push(format!("send {} {}", i, command.cmd));
            run.wire[i].push(command.cmd);
        }
    }
}

fn drain(registry: &mut Registry, run: &mut Run) {
    while (0..registry.len()).any(|i| registry.get(i).unwrap().queued() > 0) {
        send_round(registry, run);
    }
}

/// Interprets `script` on two drones. Senders run whenever the interpreter
/// sleeps or waits; a drone answers `ok` a poll after it has nothing left
/// to send.
fn interpret(script: &str) -> Run {
    let mut registry = two_drones();
    let mut run = Run {
        wire: vec![Vec::new(), Vec::new()],
        slept: Vec::new(),
        barriers: 0,
        trace: Vec::new(),
    };
    for instruction in parse_script(script) {
        assert!(registry.has_room(&instruction));
        match registry.execute(instruction) {
            Action::Continue => {}
            Action::Sleep(seconds) => {
                drain(&mut registry, &mut run);
                run.slept.push(seconds);
                run.trace.push(format!("sleep {}", seconds));
            }
            Action::AwaitBlocks => {
                let mut barrier = Barrier::new();
                let mut polls = 0;
                while barrier.poll(&registry) != BarrierPoll::Drained {
                    polls += 1;
                    assert!(polls < 100);
                    drain(&mut registry, &mut run);
                    for i in 0..registry.len() {
                        if registry.get(i).unwrap().block_counter() > 0 {
                            registry.receive(i, b"ok");
                            run.trace.push(format!("ack {}", i));
                            break;
                        }
                    }
                }
                for i in 0..registry.len() {
                    assert_eq!(registry.get(i).unwrap().block_counter(), 0);
                }
                run.barriers += 1;
                run.trace.push("barrier".to_string());
            }
        }
    }
    drain(&mut registry, &mut run);
    run
}

fn position(trace: &[String], entry: &str) -> usize {
    match trace.iter().position(|e| e == entry) {
        Some(at) => at,
        None => panic!("{} did not happen", entry),
    }
}

#[test]
fn smoke() {
    let run = interpret("command\ntakeoff\ndelay 1\nland");
    for wire in &run.wire {
        assert_eq!(wire, &vec!["command", "takeoff", "land"]);
    }
    assert_eq!(run.slept, vec![1]);
    assert_eq!(run.barriers, 0);
    for i in 0..2 {
        let slept = position(&run.trace, "sleep 1");
        assert!(position(&run.trace, &format!("send {} command", i)) < slept);
        assert!(position(&run.trace, &format!("send {} takeoff", i)) < slept);
        assert!(slept < position(&run.trace, &format!("send {} land", i)));
    }
}

#[test]
fn targeted() {
    let run = interpret("0 > takeoff\n1 > land");
    assert_eq!(run.wire[0], vec![" takeoff"]);
    assert_eq!(run.wire[1], vec![" land"]);
    assert_eq!(run.wire[0][0].trim(), "takeoff");
    assert_eq!(run.wire[1][0].trim(), "land");
    assert!(run.slept.is_empty());
}

#[test]
fn blocking_and_barrier() {
    let run = interpret("takeoff@\nawait\nland");
    for wire in &run.wire {
        assert_eq!(wire, &vec!["takeoff", "land"]);
    }
    assert_eq!(run.barriers, 1);
    let barrier = position(&run.trace, "barrier");
    for i in 0..2 {
        let takeoff = position(&run.trace, &format!("send {} takeoff", i));
        let ack = position(&run.trace, &format!("ack {}", i));
        let land = position(&run.trace, &format!("send {} land", i));
        assert!(takeoff < ack);
        assert!(ack < barrier);
        assert!(barrier < land);
    }
}

#[test]
fn bad_delay() {
    let run = interpret("delay\ncommand");
    assert_eq!(run.slept, vec![1]);
    for wire in &run.wire {
        assert_eq!(wire, &vec!["command"]);
    }
    for i in 0..2 {
        let sent = position(&run.trace, &format!("send {} command", i));
        assert!(position(&run.trace, "sleep 1") < sent);
    }
}

#[test]
fn out_of_range_target() {
    let run = interpret("5 > takeoff\ncommand");
    for wire in &run.wire {
        assert_eq!(wire, &vec!["command"]);
    }
}

#[test]
fn comments_and_blanks() {
    let run = interpret("# hi\n\n   \ncommand");
    for wire in &run.wire {
        assert_eq!(wire, &vec!["command"]);
    }
    assert!(run.slept.is_empty());
    assert_eq!(run.barriers, 0);
}

#[test]
fn barrier_with_nothing_outstanding_passes() {
    let run = interpret("takeoff\nawait\nland");
    for wire in &run.wire {
        assert_eq!(wire, &vec!["takeoff", "land"]);
    }
    assert_eq!(run.barriers, 1);
    assert!(!run.trace.iter().any(|e| e.starts_with("ack")));
}

#[test]
fn barrier_waits_for_the_one_drone_that_blocks() {
    let run = interpret("1@ > flip\nawait\n0 > land");
    assert_eq!(run.wire[0], vec![" land"]);
    assert_eq!(run.wire[1], vec![" flip"]);
    let barrier = position(&run.trace, "barrier");
    assert!(position(&run.trace, "send 1  flip") < position(&run.trace, "ack 1"));
    assert!(position(&run.trace, "ack 1") < barrier);
    assert!(barrier < position(&run.trace, "send 0  land"));
    assert!(!run.trace.iter().any(|e| e == "ack 0"));
}

#[test]
fn mixed_script_keeps_each_queue_in_script_order() {
    let run = interpret("command\n0 > up 20\nleft 30@\n1 > down 20\ndelay for 2\n# done\nland");
    assert_eq!(run.wire[0], vec!["command", " up 20", "left 30", "land"]);
    assert_eq!(run.wire[1], vec!["command", "left 30", " down 20", "land"]);
    assert_eq!(run.slept, vec![2]);
}
