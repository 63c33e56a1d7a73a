use josefine_raft::fsm::{Driver, DriverError, Fsm, FsmError, Instruction};
use josefine_raft::raft::{ClientResult, Command, Entry, EntryType};
use josefine_raft::rpc::Address;

#[derive(Debug, PartialEq, Eq, Clone, Copy)]
enum TestState {
    A,
    B,
}

#[derive(Debug, PartialEq, Eq, Clone)]
struct TestFsm {
    state: TestState,
    seen: Vec<Vec<u8>>,
}

impl TestFsm {
    fn new() -> Self {
        Self { state: TestState::A, seen: Vec::new() }
    }
}

impl Fsm for TestFsm {
    fn transition(&mut self, input: Vec<u8>) -> Result<Vec<u8>, FsmError> {
        self.seen.push(input.clone());
        match input.as_slice() {
            b"A" => self.state = TestState::A,
            b"B" => self.state = TestState::B,
            b"C" => {}
            _ => return Err(FsmError { reason: String::from("unknown input") }),
        };
        Ok(Vec::new())
    }

    fn query(&self, input: Vec<u8>) -> Vec<u8> {
        let mut out = input;
        out.push(match self.state {
            TestState::A => b'A',
            TestState::B => b'B',
        });
        out
    }
}

fn data(index: u64, bytes: &[u8]) -> Instruction {
    Instruction::Apply {
        entry: Entry { entry_type: EntryType::Entry { data: bytes.to_vec() }, term: 1, index },
    }
}

#[test]
fn drive_applies_data_entry() {
    let mut driver = Driver::new(TestFsm::new());
    assert_eq!(driver.exec(data(1, b"B")), Ok(()));
    assert_eq!(driver.applied_index(), 1);
    let fsm = driver.into_fsm();
    assert_eq!(fsm.state, TestState::B);
}

#[test]
fn drive_applies_in_index_order() {
    let mut driver = Driver::new(TestFsm::new());
    assert_eq!(driver.exec(data(1, b"A")), Ok(()));
    assert_eq!(driver.exec(data(2, b"B")), Ok(()));
    assert_eq!(driver.exec(data(3, b"C")), Ok(()));
    assert_eq!(driver.applied_index(), 3);
    let fsm = driver.into_fsm();
    assert_eq!(fsm.seen, vec![b"A".to_vec(), b"B".to_vec(), b"C".to_vec()]);
}

#[test]
fn drive_refuses_gap_and_repeat() {
    let mut driver = Driver::new(TestFsm::new());
    assert_eq!(
        driver.exec(data(2, b"B")),
        Err(DriverError::OutOfOrder { expected: 1, found: 2 })
    );
    assert_eq!(
        driver.exec(data(0, b"B")),
        Err(DriverError::OutOfOrder { expected: 1, found: 0 })
    );
    assert_eq!(driver.exec(data(1, b"A")), Ok(()));
    assert_eq!(
        driver.exec(data(1, b"A")),
        Err(DriverError::OutOfOrder { expected: 2, found: 1 })
    );
    assert_eq!(driver.applied_index(), 1);
    assert_eq!(driver.into_fsm().seen, vec![b"A".to_vec()]);
}

#[test]
fn drive_counts_other_entries_without_applying() {
    let mut driver = Driver::new(TestFsm::new());
    let noop = Instruction::Apply {
        entry: Entry {
            entry_type: EntryType::Command { command: Command::Noop },
            term: 1,
            index: 1,
        },
    };
    let config = Instruction::Apply {
        entry: Entry { entry_type: EntryType::Config {}, term: 1, index: 2 },
    };
    assert_eq!(driver.exec(noop), Ok(()));
    assert_eq!(driver.exec(config), Ok(()));
    assert_eq!(driver.applied_index(), 2);
    assert!(driver.into_fsm().seen.is_empty());
}

#[test]
fn drive_passes_fsm_failure_on() {
    let mut driver = Driver::new(TestFsm::new());
    assert_eq!(
        driver.exec(data(1, b"?")),
        Err(DriverError::Fsm(FsmError { reason: String::from("unknown input") }))
    );
    assert_eq!(driver.applied_index(), 0);
}

#[test]
fn drive_answers_query() {
    let mut driver = Driver::new(TestFsm::new());
    assert_eq!(driver.exec(data(1, b"B")), Ok(()));
    assert_eq!(driver.exec(Instruction::Query { id: 7, query: b"q".to_vec() }), Ok(()));
    let messages = driver.take_messages();
    assert_eq!(messages.len(), 1);
    assert_eq!(messages[0].from, Address::Local);
    assert_eq!(messages[0].to, Address::Local);
    assert_eq!(
        messages[0].command,
        Command::ClientResponse { id: 7, result: ClientResult::State(b"qB".to_vec()) }
    );
    assert!(driver.take_messages().is_empty());
    assert_eq!(driver.applied_index(), 1);
}

#[test]
fn drive_runs_a_batch_in_order() {
    let mut driver = Driver::new(TestFsm::new());
    let batch = vec![
        data(1, b"A"),
        Instruction::Query { id: 1, query: b"q".to_vec() },
        data(2, b"B"),
        data(3, b"C"),
    ];
    assert_eq!(driver.run(batch), Ok(()));
    assert_eq!(driver.applied_index(), 3);
    assert_eq!(driver.take_messages().len(), 1);
    assert_eq!(driver.run(Vec::new()), Ok(()));
    let fsm = driver.into_fsm();
    assert_eq!(fsm.seen, vec![b"A".to_vec(), b"B".to_vec(), b"C".to_vec()]);
    assert_eq!(fsm.state, TestState::B);
}

#[test]
fn drive_stops_a_batch_at_the_first_failure() {
    let mut driver = Driver::new(TestFsm::new());
    let batch = vec![data(1, b"A"), data(3, b"B"), data(2, b"B")];
    assert_eq!(driver.run(batch), Err(DriverError::OutOfOrder { expected: 2, found: 3 }));
    assert_eq!(driver.applied_index(), 1);
    let batch = vec![data(2, b"B"), data(3, b"?"), data(4, b"A")];
    assert_eq!(
        driver.run(batch),
        Err(DriverError::Fsm(FsmError { reason: String::from("unknown input") }))
    );
    assert_eq!(driver.applied_index(), 2);
    assert_eq!(driver.into_fsm().seen, vec![b"A".to_vec(), b"B".to_vec(), b"?".to_vec()]);
}
