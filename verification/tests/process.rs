use wisp::process::{check_argv, exit_code, merge_stderr_option, Buffer, SpawnOptions, BUFFER_CAP, WRITE_CHUNK};

fn buffer(bytes: &[u8]) -> Buffer {
    let mut b = Buffer::default();
    assert!(b.accept(bytes));
    b
}

#[test]
fn reads_follow_the_file_read_convention() {
    let mut b = Buffer::default();
    assert_eq!(b.take(None), Some(Vec::new()), "open and empty is an empty chunk");
    b.accept(b"hello");
    assert_eq!(b.take(Some(2)), Some(b"he".to_vec()));
    assert_eq!(b.take(None), Some(b"llo".to_vec()));
    b.close();
    assert_eq!(b.take(None), None, "closed and drained is the end");
}

#[test]
fn a_closed_buffer_still_drains_what_it_holds() {
    let mut b = buffer(b"tail");
    b.close();
    assert_eq!(b.take(Some(100)), Some(b"tail".to_vec()));
    assert_eq!(b.take(Some(100)), None);
}

#[test]
fn writing_after_the_pipe_broke_fails_instead_of_queueing() {
    let mut stdin = Buffer::default();
    assert_eq!(stdin.write(b"abc"), Ok(()));
    stdin.shut();
    assert_eq!(stdin.write(b"more"), Err("stdin is closed".to_string()));
    assert!(stdin.data.is_empty());
}

#[test]
fn the_stdin_buffer_refuses_to_overfill() {
    let mut stdin = Buffer::default();
    let big = vec![0u8; BUFFER_CAP];
    assert_eq!(stdin.write(&big), Ok(()));
    assert_eq!(stdin.write(b"x"), Err("stdin buffer is full".to_string()));
    assert_eq!(stdin.data.len(), BUFFER_CAP);
}

#[test]
fn readers_wait_at_the_cap_and_stop_once_closed() {
    let mut out = buffer(&vec![1u8; BUFFER_CAP]);
    assert!(out.must_wait());
    out.close();
    assert!(!out.must_wait());
    assert!(!out.accept(b"late"));
    assert_eq!(out.data.len(), BUFFER_CAP);
}

#[test]
fn the_writer_takes_bounded_chunks() {
    let mut stdin = buffer(&vec![5u8; WRITE_CHUNK + 10]);
    assert_eq!(stdin.next_chunk().unwrap().len(), WRITE_CHUNK);
    assert_eq!(stdin.next_chunk().unwrap().len(), 10);
    assert_eq!(stdin.next_chunk(), None);
}

#[test]
fn exit_codes_follow_pythons_convention() {
    assert_eq!(exit_code(Some(9), None), -9);
    assert_eq!(exit_code(None, Some(7)), 7);
    assert_eq!(exit_code(None, None), -1);
}

#[test]
fn an_empty_argv_is_refused() {
    assert_eq!(check_argv(&[]), Err("expected a command to spawn".to_string()));
    assert_eq!(check_argv(&["sh".to_string()]), Ok(()));
    let o = SpawnOptions::default();
    assert!(o.cwd.is_none() && o.env.is_empty() && !o.merge_stderr);
}

#[test]
fn only_stdout_is_a_stderr_option() {
    assert_eq!(merge_stderr_option(None), Ok(false));
    assert_eq!(merge_stderr_option(Some("stdout")), Ok(true));
    assert_eq!(merge_stderr_option(Some("null")), Err("bad stderr option \"null\"".to_string()));
}
