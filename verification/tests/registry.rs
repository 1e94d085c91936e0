use drone_commander::command::SdkCommand;
use drone_commander::console::{Console, DEFAULT_SCRIPT};
use drone_commander::drone::{BarrierPoll, Drone};
use drone_commander::registry::{Action, Barrier, Registry};
use drone_commander::script::Instruction;

fn fleet(n: usize) -> Registry {
    let mut registry = Registry::new();
    for i in 0..n {
        let at = registry.add(Drone::connect(&format!("drone{}", i)));
        assert_eq!(at, i);
    }
    registry
}

fn queued(registry: &Registry, index: usize) -> usize {
    registry.get(index).unwrap().queued()
}

#[test]
fn registry_positions_are_dense() {
    let mut registry = Registry::new();
    assert_eq!(registry.len(), 0);
    assert!(registry.get(0).is_none());
    assert_eq!(registry.add(Drone::connect("a")), 0);
    assert_eq!(registry.add(Drone::connect("b")), 1);
    assert_eq!(registry.add(Drone::connect("c")), 2);
    assert_eq!(registry.len(), 3);
    assert_eq!(registry.get(0).unwrap().id(), "a");
    assert_eq!(registry.get(1).unwrap().id(), "b");
    assert_eq!(registry.get(2).unwrap().id(), "c");
    assert!(registry.get(3).is_none());
}

#[test]
fn registry_finds_a_drone_by_its_identifier() {
    let mut registry = fleet(3);
    registry.add(Drone::connect("drone1"));
    assert_eq!(registry.find("drone0"), Some(0));
    assert_eq!(registry.find("drone1"), Some(1));
    assert_eq!(registry.find("drone2"), Some(2));
    assert_eq!(registry.find("drone3"), None);
    assert_eq!(registry.find("drone"), None);
    assert_eq!(registry.find(""), None);
    assert_eq!(Registry::new().find("drone0"), None);
}

#[test]
fn broadcast_enqueues_once_on_every_drone() {
    let mut registry = fleet(3);
    let action = registry.execute(Instruction::SendAll(SdkCommand::new("takeoff", false)));
    assert_eq!(action, Action::Continue);
    for i in 0..3 {
        assert_eq!(queued(&registry, i), 1);
        let command = registry.next_to_send(i).unwrap();
        assert_eq!(command.cmd, "takeoff");
        assert!(!command.blocking);
        assert!(registry.next_to_send(i).is_none());
    }
}

#[test]
fn broadcast_on_an_empty_registry_does_nothing() {
    let mut registry = Registry::new();
    let action = registry.execute(Instruction::SendAll(SdkCommand::new("takeoff", true)));
    assert_eq!(action, Action::Continue);
    assert_eq!(registry.len(), 0);
}

#[test]
fn targeted_command_reaches_one_drone() {
    let mut registry = fleet(3);
    let action = registry.execute(Instruction::SendTo(1, SdkCommand::new("land", true)));
    assert_eq!(action, Action::Continue);
    assert_eq!(queued(&registry, 0), 0);
    assert_eq!(queued(&registry, 1), 1);
    assert_eq!(queued(&registry, 2), 0);
    assert_eq!(registry.get(0).unwrap().block_counter(), 0);
    assert_eq!(registry.get(1).unwrap().block_counter(), 1);
    assert_eq!(registry.get(2).unwrap().block_counter(), 0);
    assert_eq!(registry.next_to_send(1).unwrap().cmd, "land");
}

#[test]
fn targeted_command_out_of_range_is_ignored() {
    let mut registry = fleet(2);
    assert_eq!(
        registry.execute(Instruction::SendTo(2, SdkCommand::new("land", true))),
        Action::Continue
    );
    assert_eq!(
        registry.execute(Instruction::SendTo(usize::MAX, SdkCommand::new("land", true))),
        Action::Continue
    );
    for i in 0..2 {
        assert_eq!(queued(&registry, i), 0);
        assert_eq!(registry.get(i).unwrap().block_counter(), 0);
    }
}

#[test]
fn delay_and_barrier_are_left_to_the_interpreter() {
    let mut registry = fleet(2);
    assert_eq!(registry.execute(Instruction::Sleep(5)), Action::Sleep(5));
    assert_eq!(registry.execute(Instruction::Sleep(0)), Action::Sleep(0));
    assert_eq!(registry.execute(Instruction::Barrier), Action::AwaitBlocks);
    assert_eq!(registry.execute(Instruction::Nothing), Action::Continue);
    for i in 0..2 {
        assert_eq!(queued(&registry, i), 0);
    }
}

#[test]
fn counters_have_room() {
    let registry = fleet(2);
    assert!(registry.has_room(&Instruction::SendAll(SdkCommand::new("a", true))));
    assert!(registry.has_room(&Instruction::SendAll(SdkCommand::new("a", false))));
    assert!(registry.has_room(&Instruction::SendTo(1, SdkCommand::new("a", true))));
    assert!(registry.has_room(&Instruction::SendTo(9, SdkCommand::new("a", true))));
    assert!(registry.has_room(&Instruction::Sleep(1)));
    assert!(registry.has_room(&Instruction::Barrier));
    assert!(registry.has_room(&Instruction::Nothing));
}

#[test]
fn sender_and_receiver_address_one_drone() {
    let mut registry = fleet(2);
    registry.execute(Instruction::SendAll(SdkCommand::new("takeoff", true)));
    assert_eq!(registry.next_to_send(0).unwrap().cmd, "takeoff");
    assert!(registry.next_to_send(5).is_none());
    registry.receive(0, b" ok \n");
    registry.receive(5, b"ok");
    assert_eq!(registry.get(0).unwrap().last_response(), "ok");
    assert!(registry.get(0).unwrap().acked());
    assert_eq!(registry.get(0).unwrap().block_counter(), 0);
    assert_eq!(registry.get(1).unwrap().last_response(), "");
    assert!(!registry.get(1).unwrap().acked());
    assert_eq!(registry.get(1).unwrap().block_counter(), 1);
    assert_eq!(queued(&registry, 1), 1);
}

#[test]
fn barrier_over_idle_drones_passes_at_once() {
    let registry = fleet(3);
    let mut barrier = Barrier::new();
    assert_eq!(barrier.poll(&registry), BarrierPoll::Drained);
    assert_eq!(barrier.poll(&registry), BarrierPoll::Drained);
    assert_eq!(Barrier::new().poll(&Registry::new()), BarrierPoll::Drained);
}

#[test]
fn barrier_ignores_commands_that_do_not_block() {
    let mut registry = fleet(2);
    registry.execute(Instruction::SendAll(SdkCommand::new("command", false)));
    assert_eq!(Barrier::new().poll(&registry), BarrierPoll::Drained);
}

#[test]
fn barrier_waits_for_every_drone_in_order() {
    let mut registry = fleet(3);
    registry.execute(Instruction::SendAll(SdkCommand::new("takeoff", true)));
    let mut barrier = Barrier::new();
    assert_eq!(barrier.poll(&registry), BarrierPoll::Wait(20));
    for i in 0..3 {
        assert_eq!(registry.next_to_send(i).unwrap().cmd, "takeoff");
    }
    assert_eq!(barrier.poll(&registry), BarrierPoll::Wait(20));
    registry.receive(1, b"ok");
    registry.receive(2, b"ok");
    assert_eq!(barrier.poll(&registry), BarrierPoll::Wait(20));
    registry.receive(0, b"ok");
    assert_eq!(barrier.poll(&registry), BarrierPoll::Drained);
}

#[test]
fn barrier_does_not_look_back_at_a_drone_it_has_passed() {
    let mut registry = fleet(2);
    registry.execute(Instruction::SendTo(1, SdkCommand::new("takeoff", true)));
    let mut barrier = Barrier::new();
    assert_eq!(barrier.poll(&registry), BarrierPoll::Wait(20));
    registry.execute(Instruction::SendTo(0, SdkCommand::new("land", true)));
    assert_eq!(registry.next_to_send(1).unwrap().cmd, "takeoff");
    registry.receive(1, b"ok");
    assert_eq!(barrier.poll(&registry), BarrierPoll::Drained);
    assert_eq!(Barrier::new().poll(&registry), BarrierPoll::Wait(20));
}

#[test]
fn console_starts_with_the_sample_script() {
    let console = Console::default();
    assert_eq!(DEFAULT_SCRIPT, "command\ntakeoff\ndelay 5\nland");
    assert_eq!(console.code, DEFAULT_SCRIPT);
    assert!(!console.run);
    assert!(!console.pass_errors);
    assert_eq!(console.drone_idx, 0);
}

#[test]
fn console_runs_once_for_each_press() {
    let mut console = Console::default();
    assert!(console.take_run().is_none());
    console.press_run();
    assert!(console.run);
    let program = console.take_run().unwrap();
    assert_eq!(program.len(), 4);
    assert!(matches!(&program[0], Instruction::SendAll(c) if c.cmd == "command"));
    assert!(matches!(&program[2], Instruction::Sleep(1)));
    assert!(!console.run);
    assert!(console.take_run().is_none());
}

#[test]
fn console_reads_the_script_as_it_stands_at_the_press() {
    let mut console = Console::default();
    console.code = "land".to_string();
    console.press_run();
    let program = console.take_run().unwrap();
    console.code = "takeoff".to_string();
    assert_eq!(program.len(), 1);
    assert!(matches!(&program[0], Instruction::SendAll(c) if c.cmd == "land"));
    console.press_run();
    let program = console.take_run().unwrap();
    assert!(matches!(&program[0], Instruction::SendAll(c) if c.cmd == "takeoff"));
}

#[test]
fn console_selects_a_drone() {
    let mut console = Console::default();
    console.select(3);
    assert_eq!(console.drone_idx, 3);
    assert_eq!(console.code, DEFAULT_SCRIPT);
    assert!(!console.run);
}
