use esp32_at::{CommandSet, CommandSets, Error, Esp32At, SerialRead, SerialWrite};
use std::cell::RefCell;
use std::rc::Rc;

#[derive(Default)]
struct Link {
    incoming: Vec<u8>,
    read_pos: usize,
    read_fails: bool,
    outgoing: Vec<u8>,
    write_room: Option<usize>,
    write_fails: bool,
}

#[derive(Debug, PartialEq)]
struct LinkFault;

struct Rx(Rc<RefCell<Link>>);
struct Tx(Rc<RefCell<Link>>);

impl SerialRead for Rx {
    type Error = LinkFault;

    fn read(&mut self) -> nb::Result<u8, LinkFault> {
        let mut link = self.0.borrow_mut();
        if link.read_fails {
            return Err(nb::Error::Other(LinkFault));
        }
        if link.read_pos < link.incoming.len() {
            let b = link.incoming[link.read_pos];
            link.read_pos += 1;
            Ok(b)
        } else {
            Err(nb::Error::WouldBlock)
        }
    }
}

impl SerialWrite for Tx {
    type Error = LinkFault;

    fn write(&mut self, byte: u8) -> nb::Result<(), LinkFault> {
        let mut link = self.0.borrow_mut();
        if link.write_fails {
            return Err(nb::Error::Other(LinkFault));
        }
        if let Some(room) = link.write_room {
            if room == 0 {
                return Err(nb::Error::WouldBlock);
            }
            link.write_room = Some(room - 1);
        }
        link.outgoing.push(byte);
        Ok(())
    }
}

fn setup(reply: &[u8]) -> (Esp32At<Rx, Tx>, Rc<RefCell<Link>>) {
    let link = Rc::new(RefCell::new(Link { incoming: reply.to_vec(), ..Link::default() }));
    let sets = CommandSets::empty().with(CommandSet::TcpIp).with(CommandSet::Wifi);
    (Esp32At::new(Rx(link.clone()), Tx(link.clone()), sets), link)
}

fn unread(link: &Rc<RefCell<Link>>) -> usize {
    let l = link.borrow();
    l.incoming.len() - l.read_pos
}

#[test]
fn module_revision() {
    let (mut esp32_at, _link) = setup(b"\r\n\r\n\r\nOK\r\n");
    let revision = esp32_at.get_module_revision().ok().unwrap();
    assert_eq!("", revision.sdk_version);
    assert_eq!("", revision.at_version);
    assert_eq!("", revision.compile_time);
}

#[test]
fn test_startup_accepts_ok() {
    let (mut d, link) = setup(b"OK\r\n");
    assert!(d.test_startup().is_ok());
    assert_eq!(link.borrow().outgoing, b"AT\r\n".to_vec());
    assert_eq!(unread(&link), 0);
}

#[test]
fn module_revision_fields() {
    let (mut d, link) = setup(b"v1\r\nv2\r\nv3\r\nOK\r\n");
    let rev = d.get_module_revision().ok().unwrap();
    assert_eq!(rev.at_version.as_str(), "v1");
    assert_eq!(rev.sdk_version.as_str(), "v2");
    assert_eq!(rev.compile_time.as_str(), "v3");
    assert_eq!(link.borrow().outgoing, b"AT+GMR\r\n".to_vec());
    assert_eq!(unread(&link), 0);
}

#[test]
fn documented_replies_leave_nothing_unread() {
    let (mut d, link) = setup(b"OK\r\n");
    assert!(d.restart().is_ok());
    assert_eq!(unread(&link), 0);
    let (mut d, link) = setup(b"OK\r\n");
    assert!(d.factory_reset().is_ok());
    assert_eq!(unread(&link), 0);
    let (mut d, link) = setup(b"\r\nOK\r\n");
    assert!(d.enter_deep_sleep(5).is_ok());
    assert_eq!(unread(&link), 0);
    let (mut d, link) = setup(b"a\r\nb\r\nc\r\nOK\r\n");
    assert!(d.get_module_revision().is_ok());
    assert_eq!(unread(&link), 0);
}

#[test]
fn command_lines_are_exact() {
    let (mut d, link) = setup(b"OK\r\n");
    assert!(d.restart().is_ok());
    assert_eq!(link.borrow().outgoing, b"AT+RST\r\n".to_vec());
    let (mut d, link) = setup(b"OK\r\n");
    assert!(d.factory_reset().is_ok());
    assert_eq!(link.borrow().outgoing, b"AT+RESTORE\r\n".to_vec());
    let (mut d, link) = setup(b"\r\nOK\r\n");
    assert!(d.enter_deep_sleep(0).is_ok());
    assert_eq!(link.borrow().outgoing, b"AT+GSLP=0\r\n".to_vec());
    let (mut d, link) = setup(b"\r\nOK\r\n");
    assert!(d.enter_deep_sleep(4294967295).is_ok());
    assert_eq!(link.borrow().outgoing, b"AT+GSLP=4294967295\r\n".to_vec());
}

#[test]
fn overlong_line_overflows_before_terminator() {
    let mut reply = vec![b'x'; 100];
    reply.extend_from_slice(b"\r\nOK\r\n");
    let (mut d, link) = setup(&reply);
    assert!(matches!(d.get_module_revision(), Err(nb::Error::Other(Error::BufferOverflow))));
    assert_eq!(link.borrow().read_pos, 66);
}

#[test]
fn line_of_full_capacity_is_kept() {
    let mut reply = vec![b'y'; 64];
    reply.extend_from_slice(b"\r\nb\r\nc\r\nOK\r\n");
    let (mut d, _link) = setup(&reply);
    let rev = d.get_module_revision().ok().unwrap();
    assert_eq!(rev.at_version.len(), 64);
    let mut reply = vec![b'y'; 65];
    reply.extend_from_slice(b"\r\nb\r\nc\r\nOK\r\n");
    let (mut d, _link) = setup(&reply);
    assert!(matches!(d.get_module_revision(), Err(nb::Error::Other(Error::BufferOverflow))));
}

#[test]
fn error_reply_is_unexpected_at_first_byte() {
    let (mut d, link) = setup(b"ERROR\r\n");
    assert!(matches!(d.test_startup(), Err(nb::Error::Other(Error::UnexpectedResponse))));
    assert_eq!(link.borrow().read_pos, 1);
}

#[test]
fn status_differing_late_is_unexpected() {
    let (mut d, link) = setup(b"OX\r\n");
    assert!(matches!(d.restart(), Err(nb::Error::Other(Error::UnexpectedResponse))));
    assert_eq!(link.borrow().read_pos, 2);
}

#[test]
fn invalid_text_is_a_decoding_error() {
    let (mut d, _link) = setup(b"\xff\xfe\r\nv2\r\nv3\r\nOK\r\n");
    assert!(matches!(d.get_module_revision(), Err(nb::Error::Other(Error::Utf8 { .. }))));
}

#[test]
fn deep_sleep_writes_command_before_reading() {
    let (mut d, link) = setup(b"");
    assert!(matches!(d.enter_deep_sleep(1500), Err(nb::Error::WouldBlock)));
    assert_eq!(link.borrow().outgoing, b"AT+GSLP=1500\r\n".to_vec());
}

#[test]
fn test_startup_twice() {
    let (mut d, link) = setup(b"OK\r\nOK\r\n");
    assert!(d.test_startup().is_ok());
    assert!(d.test_startup().is_ok());
    assert_eq!(link.borrow().outgoing, b"AT\r\nAT\r\n".to_vec());
    assert_eq!(unread(&link), 0);
}

#[test]
fn skipped_line_may_hold_anything() {
    let (mut d, _link) = setup(b"\r\r\xff some text\nmore\r\nOK\r\n");
    assert!(d.enter_deep_sleep(10).is_ok());
}

#[test]
fn carriage_return_inside_line_is_content() {
    let (mut d, _link) = setup(b"a\rb\r\r\nx\r\ny\r\nOK\r\n");
    let rev = d.get_module_revision().ok().unwrap();
    assert_eq!(rev.at_version.as_str(), "a\rb\r");
}

#[test]
fn full_transmitter_would_block() {
    let (mut d, link) = setup(b"OK\r\n");
    link.borrow_mut().write_room = Some(1);
    assert!(matches!(d.test_startup(), Err(nb::Error::WouldBlock)));
    assert_eq!(link.borrow().outgoing, b"A".to_vec());
    assert_eq!(link.borrow().read_pos, 0);
}

#[test]
fn transmitter_failure_is_a_write_error() {
    let (mut d, link) = setup(b"OK\r\n");
    link.borrow_mut().write_fails = true;
    assert!(matches!(d.test_startup(), Err(nb::Error::Other(Error::UartWrite { cause: LinkFault }))));
}

#[test]
fn receiver_failure_is_a_read_error() {
    let (mut d, link) = setup(b"OK\r\n");
    link.borrow_mut().read_fails = true;
    assert!(matches!(d.test_startup(), Err(nb::Error::Other(Error::UartRead { cause: LinkFault }))));
}

#[test]
fn partial_reply_would_block() {
    let (mut d, _link) = setup(b"v1\r\nv2");
    assert!(matches!(d.get_module_revision(), Err(nb::Error::WouldBlock)));
}

#[test]
fn enabled_command_sets() {
    let (d, _link) = setup(b"");
    assert!(d.supports(CommandSet::TcpIp));
    assert!(d.supports(CommandSet::Wifi));
    assert!(!d.supports(CommandSet::Ble));
    assert!(!d.supports(CommandSet::ParticleArgonExt));
}

#[test]
fn command_set_guard() {
    let (d, _link) = setup(b"");
    assert!(d.require_command_set(CommandSet::Wifi).is_ok());
    assert!(matches!(
        d.require_command_set(CommandSet::Ble),
        Err(Error::CommandSetNotSupported { command_set: CommandSet::Ble })
    ));
}

#[test]
fn error_descriptions() {
    let e: Error<LinkFault, LinkFault> = Error::BufferOverflow;
    assert_eq!(e.description(), "buffer overflow");
    let e: Error<LinkFault, LinkFault> = Error::UnexpectedResponse;
    assert_eq!(e.description(), "unexpected response");
    let e: Error<LinkFault, LinkFault> = Error::UartRead { cause: LinkFault };
    assert_eq!(e.description(), "UART read error");
    let e: Error<LinkFault, LinkFault> = Error::UartWrite { cause: LinkFault };
    assert_eq!(e.description(), "UART write error");
    let e: Error<LinkFault, LinkFault> = Error::CommandSetNotSupported { command_set: CommandSet::Ble };
    assert_eq!(e.description(), "command set not supported");
}

#[test]
fn reply_followed_by_more_bytes_is_read_exactly() {
    let (mut d, link) = setup(b"v1\r\nv2\r\nv3\r\nOK\r\nOK\r\n");
    assert!(d.get_module_revision().is_ok());
    assert_eq!(unread(&link), 4);
    assert!(d.test_startup().is_ok());
    assert_eq!(unread(&link), 0);
}
