use std::collections::VecDeque;

use picomenu::make_menu;
use picomenu::Command;
use picomenu::IoDevice;
use picomenu::IoDeviceError;
use picomenu::Menu;
use picomenu::MenuError;
use picomenu::Output;

struct MockIo {
    received: VecDeque<String>,
    to_send: VecDeque<Vec<u8>>,
}

impl MockIo {
    fn new() -> Self {
        Self { received: Default::default(), to_send: Default::default() }
    }

    fn read(&mut self) -> String {
        self.received.pop_front().unwrap()
    }

    fn queue_to_send(&mut self, msg: &str) {
        self.to_send.push_back(msg.as_bytes().to_vec());
    }

    fn queue_bytes(&mut self, msg: &[u8]) {
        self.to_send.push_back(msg.to_vec());
    }
}

impl IoDevice for MockIo {
    fn write_packet(&mut self, data: &[u8]) -> Result<(), IoDeviceError> {
        let new_string = String::from_utf8(data.to_vec()).unwrap();
        self.received.push_back(new_string);
        Ok(())
    }

    fn read_packet(&mut self, max_len: usize) -> Result<Vec<u8>, IoDeviceError> {
        if let Some(to_send) = self.to_send.pop_front() {
            if to_send.len() < max_len {
                Ok(to_send)
            } else {
                Err(IoDeviceError::BufferOverflow)
            }
        } else {
            Err(IoDeviceError::Disconnected)
        }
    }
}

const TEST_RESPONSE: &str = "Testing 123!\n";
const VERSION_RESPONSE: &str = "Version: 0\n";

#[derive(Default)]
struct State {
    version: u32,
    overflowed: bool,
}

struct TestCommand {}
impl<IO: IoDevice> Command<IO, State> for TestCommand {
    fn name() -> &'static str {
        "test"
    }

    fn help_string() -> &'static str {
        "Tests stuff"
    }

    fn execute(
        _args: Option<&str>,
        output: &mut Output<IO>,
        _state: &mut State,
    ) -> Result<(), MenuError> {
        output.write(TEST_RESPONSE)?;
        Ok(())
    }
}

struct VersionCommand {}
impl<IO: IoDevice> Command<IO, State> for VersionCommand {
    fn name() -> &'static str {
        "version"
    }

    fn help_string() -> &'static str {
        "Shows version"
    }

    fn execute(
        _args: Option<&str>,
        output: &mut Output<IO>,
        state: &mut State,
    ) -> Result<(), MenuError> {
        output.write_str("Version: ")?;
        output.write_line(&format!("{}", state.version))
    }
}

struct OverflowCommand {}
impl<IO: IoDevice> Command<IO, State> for OverflowCommand {
    fn name() -> &'static str {
        "overflow"
    }

    fn help_string() -> &'static str {
        "Crashes"
    }

    fn execute(
        _args: Option<&str>,
        output: &mut Output<IO>,
        state: &mut State,
    ) -> Result<(), MenuError> {
        let res = output.write_line("Very long text that will overflow");
        state.overflowed = res == Err(MenuError::OutputBufferOverflow);
        Ok(())
    }
}

struct HelloCommand {}
impl<IO: IoDevice> Command<IO, State> for HelloCommand {
    fn name() -> &'static str {
        "hello"
    }

    fn help_string() -> &'static str {
        "Says hello"
    }

    fn execute(
        args: Option<&str>,
        output: &mut Output<IO>,
        _state: &mut State,
    ) -> Result<(), MenuError> {
        if let Some(name) = args {
            output.write_str("Hello ")?;
            output.write_str(name)?;
            output.write_line("!")
        } else {
            output.write_line("Please enter your name")
        }
    }
}

struct LoudCommand {}
impl<IO: IoDevice> Command<IO, State> for LoudCommand {
    fn name() -> &'static str {
        "loud"
    }

    fn help_string() -> &'static str {
        "Propagates its overflow"
    }

    fn execute(
        _args: Option<&str>,
        output: &mut Output<IO>,
        _state: &mut State,
    ) -> Result<(), MenuError> {
        output.write_str("this reply does not fit in a tiny buffer")
    }
}

fn build_menu(
    device: MockIo,
    state: State,
    input_capacity: usize,
    output_capacity: usize,
) -> impl Menu<MockIo, State> {
    make_menu(device, state, vec![0u8; input_capacity], vec![0u8; output_capacity])
        .with_command::<TestCommand>()
        .with_command::<VersionCommand>()
        .with_command::<OverflowCommand>()
        .with_command::<HelloCommand>()
}

#[test]
fn prints_help() {
    let mut device = MockIo::new();
    device.queue_to_send("help\n");

    let mut menu = build_menu(device, State::default(), 128, 128);
    menu.run().unwrap();
    let (mut device, _state) = menu.into_parts();

    assert_eq!(device.read(), "AVAILABLE COMMANDS:\n\n");
    assert_eq!(device.read(), "hello: Says hello\n");
    assert_eq!(device.read(), "overflow: Crashes\n");
    assert_eq!(device.read(), "version: Shows version\n");
    assert_eq!(device.read(), "test: Tests stuff\n");
}

#[test]
fn supports_simple_command() {
    let mut device = MockIo::new();
    device.queue_to_send("test\n");

    let mut menu = build_menu(device, State::default(), 128, 128);
    menu.run().unwrap();
    let (mut device, _state) = menu.into_parts();

    assert_eq!(device.read(), TEST_RESPONSE);
}

#[test]
fn supports_formatting() {
    let mut device = MockIo::new();
    device.queue_to_send("version\n");

    let mut menu = build_menu(device, State::default(), 128, 128);
    menu.run().unwrap();
    let (mut device, _state) = menu.into_parts();

    assert_eq!(device.read(), VERSION_RESPONSE);
}

#[test]
fn handles_multiple_requests() {
    let mut device = MockIo::new();
    device.queue_to_send("test\n");
    device.queue_to_send("version\n");

    let mut menu = build_menu(device, State::default(), 128, 128);
    menu.run().unwrap();
    let (mut device, _state) = menu.into_parts();

    assert_eq!(device.read(), TEST_RESPONSE);
    assert_eq!(device.read(), VERSION_RESPONSE);
}

#[test]
fn handles_requests_after_error() {
    let mut device = MockIo::new();
    device.queue_to_send("unkown\n");
    device.queue_to_send("test\n");

    let mut menu = build_menu(device, State::default(), 128, 128);
    menu.run().unwrap();
    let (mut device, _state) = menu.into_parts();

    assert_eq!(device.read(), "Unknown command\n");
    assert_eq!(device.read(), TEST_RESPONSE);
}

#[test]
fn supports_inputs_in_pieces() {
    let mut device = MockIo::new();
    device.queue_to_send("tes");
    device.queue_to_send("t\n");

    let mut menu = build_menu(device, State::default(), 128, 128);
    menu.run().unwrap();
    let (mut device, _state) = menu.into_parts();

    assert_eq!(device.read(), TEST_RESPONSE);
}

#[test]
fn supports_two_inputs_in_pieces() {
    let mut device = MockIo::new();
    device.queue_to_send("test\nver");
    device.queue_to_send("sion");
    device.queue_to_send("\n");

    let mut menu = build_menu(device, State::default(), 128, 128);
    menu.run().unwrap();
    let (mut device, _state) = menu.into_parts();

    assert_eq!(device.read(), TEST_RESPONSE);
    assert_eq!(device.read(), VERSION_RESPONSE);
}

#[test]
fn supports_two_inputs_at_once() {
    let mut device = MockIo::new();
    device.queue_to_send("version\ntest\n");

    let mut menu = build_menu(device, State::default(), 128, 128);
    menu.run().unwrap();
    let (mut device, _state) = menu.into_parts();

    assert_eq!(device.read(), VERSION_RESPONSE);
    assert_eq!(device.read(), TEST_RESPONSE);
}

#[test]
fn handles_unknown_command() {
    let mut device = MockIo::new();
    device.queue_to_send("unknown\n");

    let mut menu = build_menu(device, State::default(), 128, 128);
    menu.run().unwrap();
    let (mut device, _state) = menu.into_parts();

    assert_eq!(device.read(), "Unknown command\n");
}

#[test]
fn handles_input_buffer_overflow() {
    let mut device = MockIo::new();
    device.queue_to_send("very long string ");
    device.queue_to_send("that will overflow\n");
    device.queue_to_send("test\n");

    let mut menu = build_menu(device, State::default(), 20, 128);
    menu.run().unwrap();
    let (mut device, _state) = menu.into_parts();

    assert_eq!(device.read(), "Input buffer overflowed & dumped\n");
    assert_eq!(device.read(), TEST_RESPONSE);
}

#[test]
fn handles_output_buffer_overflow() {
    let mut device = MockIo::new();
    device.queue_to_send("overflow\n");

    let state = State::default();
    assert!(!state.overflowed);

    let mut menu = build_menu(device, state, 128, 5);
    menu.run().unwrap();
    let (_device, state) = menu.into_parts();

    assert!(state.overflowed);
}

#[test]
fn handles_command_arguments() {
    let mut device = MockIo::new();
    device.queue_to_send("hello Testing Person\n");

    let mut menu = build_menu(device, State::default(), 128, 128);
    menu.run().unwrap();
    let (mut device, _state) = menu.into_parts();

    assert_eq!(device.read(), "Hello Testing Person!\n");
}

#[test]
fn disconnect_terminates_without_output() {
    let device = MockIo::new();

    let mut menu = build_menu(device, State::default(), 128, 128);
    assert_eq!(menu.run(), Ok(()));
    let (device, _state) = menu.into_parts();

    assert!(device.received.is_empty());
}

#[test]
fn empty_line_is_unknown() {
    let mut device = MockIo::new();
    device.queue_to_send("\n");

    let mut menu = build_menu(device, State::default(), 128, 128);
    menu.run().unwrap();
    let (mut device, _state) = menu.into_parts();

    assert_eq!(device.read(), "Unknown command\n");
}

#[test]
fn recovers_after_utf8_error() {
    let mut device = MockIo::new();
    device.queue_bytes(&[0xffu8, 0x0a]);
    device.queue_to_send("test\n");

    let mut menu = build_menu(device, State::default(), 128, 128);
    menu.run().unwrap();
    let (mut device, _state) = menu.into_parts();

    assert_eq!(device.read(), "Input UTF8 error\n");
    assert_eq!(device.read(), TEST_RESPONSE);
}

#[test]
fn propagated_output_overflow_stops_the_loop() {
    let mut device = MockIo::new();
    device.queue_to_send("loud\n");
    device.queue_to_send("loud\n");

    let mut menu = make_menu(device, State::default(), vec![0u8; 128], vec![0u8; 5])
        .with_command::<LoudCommand>();
    assert_eq!(menu.run(), Err(MenuError::OutputBufferOverflow));
    let (device, _state) = menu.into_parts();

    assert!(device.received.is_empty());
}
