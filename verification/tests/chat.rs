use rust_practice::chat::{
    command_from_input, decode, encode, is_valid_arg, is_valid_input, is_white_space,
    name_and_addr_from_arg, next_token, Client, Clients, Command, ServerCmd,
};
use rust_practice::stream_agent::{
    read_ok, AgentReader, AgentWriter, FlushAction, ReadResult, WriteResult,
};

#[test]
fn encode_decode_should_work() {
    let name_cmd = Command::Name("Alice".into());
    let msg_cmd = Command::Message("Hello".into());

    let mut stream = encode(name_cmd.clone());
    stream.extend(encode(msg_cmd.clone()));

    let (first, used) = decode(&stream).unwrap();
    assert_eq!(first, name_cmd);
    let (second, rest) = decode(&stream[used..]).unwrap();
    assert_eq!(second, msg_cmd);
    assert_eq!(used + rest, stream.len());
}

/// Sends everything buffered in `writer` into `stream`, as a stream that
/// takes all bytes at once would.
fn flush_into(writer: &mut AgentWriter, stream: &mut Vec<u8>, zero_fails: bool) -> bool {
    let mut action = writer.flush_start();
    loop {
        match action {
            FlushAction::Write(start) => {
                let chunk = writer.buf[start..].to_vec();
                stream.extend_from_slice(&chunk);
                action = writer.flush_step(start, WriteResult::Wrote(chunk.len()), zero_fails);
            }
            FlushAction::Done | FlushAction::Stop => return true,
            FlushAction::Fail => return false,
        }
    }
}

#[test]
fn async_stream_agent_should_work() {
    let mut writer = AgentWriter::new();
    let mut stream = Vec::new();
    let cmd = Command::Message("Hello world".into());

    writer.write(&encode(cmd.clone()));
    assert!(flush_into(&mut writer, &mut stream, false));

    let mut reader = AgentReader::new();
    reader.fill(&stream);
    if let Ok(c) = reader.decode() {
        assert_eq!(c, cmd);
    } else {
        assert!(false)
    }
}

#[test]
fn frame_layout_is_tag_length_text() {
    assert_eq!(encode(Command::Name("Al".into())), vec![0, 0, 0, 0, 2, b'A', b'l']);
    assert_eq!(encode(Command::Message("".into())), vec![1, 0, 0, 0, 0]);
    let long = "x".repeat(300);
    let bytes = encode(Command::Message(long.clone()));
    assert_eq!(&bytes[..5], &[1, 0, 0, 1, 44]);
    assert_eq!(decode(&bytes).unwrap(), (Command::Message(long), 305));
}

#[test]
fn decode_waits_for_a_whole_frame() {
    let bytes = encode(Command::Name("Bob".into()));
    assert!(decode(&bytes[..3]).is_err());
    assert!(decode(&bytes[..7]).is_err());
    assert!(decode(&[]).is_err());
    // a frame followed by part of the next one decodes the first alone
    let mut two = bytes.clone();
    two.extend_from_slice(&[1, 0, 0]);
    assert_eq!(decode(&two).unwrap(), (Command::Name("Bob".into()), 8));
}

#[test]
fn multibyte_text_round_trips() {
    let text = "Grüße 👋";
    let bytes = encode(Command::Message(text.into()));
    assert_eq!(bytes[4] as usize, text.len());
    assert_eq!(decode(&bytes).unwrap().0, Command::Message(text.into()));
}

#[test]
fn reader_takes_oldest_bytes_first() {
    let mut reader = AgentReader::new();
    reader.fill(&[1, 2, 3]);
    reader.fill(&[4, 5]);
    assert_eq!(reader.take(2), vec![1, 2]);
    assert_eq!(reader.take(10), vec![3, 4, 5]);
    assert_eq!(reader.take(4), Vec::<u8>::new());
}

#[test]
fn reader_drops_a_partial_frame() {
    let mut reader = AgentReader::new();
    let bytes = encode(Command::Name("Carol".into()));
    reader.fill(&bytes[..6]);
    assert!(reader.decode().is_err());
    assert!(reader.buf.is_empty());
    let mut reader = AgentReader::new();
    reader.fill(&bytes);
    reader.fill(&[9]);
    assert_eq!(reader.decode().unwrap(), Command::Name("Carol".into()));
    assert_eq!(reader.buf, vec![9]);
}

#[test]
fn flush_keeps_position_of_partial_writes() {
    let mut writer = AgentWriter::new();
    assert_eq!(writer.write(&[10, 11, 12, 13, 14, 15]), 6);
    assert!(matches!(writer.flush_start(), FlushAction::Write(0)));
    // two bytes go; the next write starts two bytes on
    assert!(matches!(writer.flush_step(0, WriteResult::Wrote(2), true), FlushAction::Write(2)));
    assert_eq!(writer.cursor, 2);
    // the stream takes nothing now: stop, keeping what is left
    assert!(matches!(writer.flush_step(2, WriteResult::WouldBlock, true), FlushAction::Stop));
    assert_eq!(writer.cursor, 2);
    assert_eq!(writer.buf.len(), 6);
    // a later flush goes on from the cursor; the cursor keeps counting from
    // the start of the buffer, so the next write starts that far on
    assert!(matches!(writer.flush_start(), FlushAction::Write(2)));
    assert!(matches!(writer.flush_step(2, WriteResult::Wrote(1), true), FlushAction::Write(5)));
    assert_eq!(writer.cursor, 3);
    let mut whole = AgentWriter::new();
    whole.write(&[1, 2, 3, 4]);
    assert!(matches!(whole.flush_step(0, WriteResult::Wrote(4), true), FlushAction::Done));
    assert_eq!(whole.cursor, 0);
    assert!(whole.buf.is_empty());
}

#[test]
fn flush_fails_on_a_zero_write_or_error() {
    let mut writer = AgentWriter::new();
    writer.write(&[1, 2, 3]);
    assert!(matches!(writer.flush_step(0, WriteResult::Wrote(0), true), FlushAction::Fail));
    assert!(matches!(writer.flush_step(0, WriteResult::Failed, true), FlushAction::Fail));
    assert_eq!(writer.buf, vec![1, 2, 3]);
    // the asynchronous writer counts a zero write like any other
    assert!(matches!(writer.flush_step(0, WriteResult::Wrote(0), false), FlushAction::Write(0)));
    writer.clear();
    assert!(matches!(writer.flush_start(), FlushAction::Done));
}

#[test]
fn flush_second_write_skips_ahead_by_the_cursor() {
    let mut writer = AgentWriter::new();
    writer.write(&[0; 10]);
    assert!(matches!(writer.flush_step(0, WriteResult::Wrote(2), true), FlushAction::Write(2)));
    // the cursor now stands at 5; the next write starts 5 bytes after 2
    assert!(matches!(writer.flush_step(2, WriteResult::Wrote(3), true), FlushAction::Write(7)));
    assert_eq!(writer.cursor, 5);
}

#[test]
fn read_result_tells_a_closed_stream() {
    assert!(!read_ok(ReadResult::Read(0)));
    assert!(read_ok(ReadResult::Read(7)));
    assert!(read_ok(ReadResult::WouldBlock));
    assert!(!read_ok(ReadResult::Failed));
}

fn announcement(cmd: Option<ServerCmd>) -> String {
    match cmd {
        Some(ServerCmd::Announcement(s)) => s,
        _ => panic!("expected an announcement"),
    }
}

#[test]
fn client_names_are_announced() {
    let mut c = Client::new();
    assert_eq!(c.name(), "");
    assert_eq!(c.rename("Alice"), "----- Welcome, Alice -----");
    assert_eq!(c.rename("Alice"), "----- Welcome again, Alice -----");
    assert_eq!(c.rename("Bob"), "----- Alice changed name to 👉 Bob -----");
    assert_eq!(c.name(), "Bob");
    assert_eq!(c.message_line("hi"), "Bob: hi");
    c.set_name("Eve");
    assert_eq!(c.name(), "Eve");
}

#[test]
fn server_relays_and_announces() {
    let mut clients = Clients::new();
    let (out, next) = clients.serve(ServerCmd::Connect(1));
    assert!(out.is_empty() && next.is_none());
    clients.serve(ServerCmd::Connect(2));
    assert_eq!(clients.name_of(1), Some(String::new()));

    let welcome = announcement(clients.client_command(1, Command::Name("Alice".into())));
    assert_eq!(welcome, "----- Welcome, Alice -----");
    let (mut out, next) = clients.serve(ServerCmd::Announcement(welcome.clone()));
    assert!(next.is_none());
    out.sort();
    assert_eq!(out, vec![(1, welcome.clone()), (2, welcome)]);

    match clients.client_command(1, Command::Message("hello".into())) {
        Some(ServerCmd::Broadcast(src, line)) => {
            assert_eq!(src, 1);
            assert_eq!(line, "Alice: hello");
            let (out, _) = clients.serve(ServerCmd::Broadcast(src, line));
            assert_eq!(out, vec![(2, "Alice: hello".to_string())]);
        }
        _ => panic!("expected a broadcast"),
    }

    // a command of a client that is not connected is ignored
    assert!(clients.client_command(9, Command::Name("Mallory".into())).is_none());

    let (out, next) = clients.serve(ServerCmd::Disconnect(1));
    assert!(out.is_empty());
    assert_eq!(announcement(next), "----- Alice has left -----");
    let (_, next) = clients.serve(ServerCmd::Disconnect(1));
    assert!(next.is_none());
    assert_eq!(clients.name_of(1), None);
    assert_eq!(clients.notify_all("x"), vec![(2, "x".to_string())]);
    assert!(clients.notify_all_exclude("x", 2).is_empty());
}

#[test]
fn reconnecting_client_starts_without_a_name() {
    let mut clients = Clients::new();
    clients.insert(5);
    clients.client_command(5, Command::Name("Zed".into()));
    assert_eq!(clients.name_of(5), Some("Zed".to_string()));
    clients.insert(5);
    assert_eq!(clients.name_of(5), Some(String::new()));
    assert_eq!(clients.remove(5).map(|c| c.name()), Some(String::new()));
    assert!(clients.remove(5).is_none());
}

#[test]
fn tokens_count_up() {
    let mut cur = 1;
    assert_eq!(next_token(&mut cur), 1);
    assert_eq!(next_token(&mut cur), 2);
    assert_eq!(cur, 3);
}

#[test]
fn input_lines_become_commands() {
    assert_eq!(command_from_input("  hello world \n"), Command::Message("hello world".into()));
    assert_eq!(command_from_input("/chn Bob\n"), Command::Name("Bob".into()));
    assert_eq!(command_from_input("\t/chn   Bob  extra"), Command::Name("Bob".into()));
    assert_eq!(command_from_input("\n"), Command::Message("".into()));
    assert_eq!(command_from_input("a / b"), Command::Message("a / b".into()));
    assert!(is_white_space('\u{3000}'));
    assert!(!is_white_space('x'));
}

#[test]
fn argument_gives_name_and_address() {
    assert_eq!(
        name_and_addr_from_arg("Alice@127.0.0.1:8000"),
        ("Alice".to_string(), "127.0.0.1:8000".to_string())
    );
    assert_eq!(
        name_and_addr_from_arg("@10.0.0.1:9"),
        ("Anonymous".to_string(), "10.0.0.1:9".to_string())
    );
    assert_eq!(
        name_and_addr_from_arg("10.0.0.1:9"),
        ("Anonymous".to_string(), "10.0.0.1:9".to_string())
    );
    assert_eq!(
        name_and_addr_from_arg("Anonymous@127.0.0.1:8000"),
        ("Anonymous".to_string(), "127.0.0.1:8000".to_string())
    );
}

#[test]
fn input_and_argument_checks() {
    assert!(is_valid_input("hello"));
    assert!(is_valid_input("  /chn  Dana "));
    assert!(!is_valid_input("/chn"));
    assert!(!is_valid_input("/chn   \n"));
    assert!(!is_valid_input("/quit"));
    assert!(!is_valid_input("/chnx Bob"));
    assert!(is_valid_arg("a@b"));
    assert!(is_valid_arg("ab"));
    assert!(!is_valid_arg("a@b@c"));
}
