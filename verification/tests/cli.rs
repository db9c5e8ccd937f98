use image_streamer::cli::{parse_ext_fd, parse_port_remap, CliError, Operation, Opts};
use std::path::PathBuf;

fn opts(operation: Operation) -> Opts {
    Opts {
        images_dir: PathBuf::from("/images"),
        shard_fds: vec![],
        ext_file_fds: vec![],
        progress_fd: None,
        tcp_listen_remap: vec![],
        operation,
    }
}

#[test]
fn ext_fd_is_a_name_and_a_number() {
    assert_eq!(parse_ext_fd("fs.tar:3"), Ok(("fs.tar".to_string(), 3)));
    assert_eq!(parse_ext_fd("a/b c:+12"), Ok(("a/b c".to_string(), 12)));
    assert_eq!(parse_ext_fd("é:-1"), Ok(("é".to_string(), -1)));
    assert_eq!(parse_ext_fd(":0"), Ok((String::new(), 0)));
}

#[test]
fn ext_fd_needs_exactly_one_colon() {
    for s in ["", "3", "fs.tar", "a:b:3", "a::3", "::"] {
        assert_eq!(parse_ext_fd(s), Err(CliError::ExtFdFormat), "{}", s);
    }
    assert_eq!(CliError::ExtFdFormat.message(), "Format is filename:fd");
}

#[test]
fn ext_fd_needs_an_integer() {
    for s in ["a:", "a:b", "a:3 ", "a: 3", "a:0x3", "a:2147483648", "a:-2147483649", "a:-", "a:+"] {
        assert_eq!(parse_ext_fd(s), Err(CliError::ExtFdNotInteger), "{}", s);
    }
    assert_eq!(parse_ext_fd("a:2147483647"), Ok(("a".to_string(), i32::MAX)));
    assert_eq!(parse_ext_fd("a:-2147483648"), Ok(("a".to_string(), i32::MIN)));
    assert_eq!(CliError::ExtFdNotInteger.message(), "Provided ext fd is not an integer");
}

#[test]
fn port_remap_is_two_ports() {
    assert_eq!(parse_port_remap("2000:3000"), Ok((2000, 3000)));
    assert_eq!(parse_port_remap("0:65535"), Ok((0, 65535)));
    assert_eq!(parse_port_remap("+080:00000000000000000000443"), Ok((80, 443)));
}

#[test]
fn port_remap_errors() {
    for s in ["", "80", "80:81:82", "80 81"] {
        assert_eq!(parse_port_remap(s), Err(CliError::PortRemapFormat), "{}", s);
    }
    for s in [":81", "a:81", "65536:81", "-1:81", "a:b", ":"] {
        assert_eq!(parse_port_remap(s), Err(CliError::OldPortNotInteger), "{}", s);
    }
    for s in ["80:", "80:b", "80:65536", "80:-0", "80:99999999999999999999999"] {
        assert_eq!(parse_port_remap(s), Err(CliError::NewPortNotInteger), "{}", s);
    }
    assert_eq!(CliError::PortRemapFormat.message(), "Format is old_port:new_port");
    assert_eq!(CliError::OldPortNotInteger.message(), "Provided old_port is not a u16 integer");
    assert_eq!(CliError::NewPortNotInteger.message(), "Provided new_port is not a u16 integer");
}

#[test]
fn numbers_are_read_as_the_standard_library_reads_them() {
    let texts = [
        "", "+", "-", "0", "+0", "-0", "00", "7", "+7", "-7", "++7", "65535", "65536", "065535",
        "2147483647", "2147483648", "-2147483648", "-2147483649", "1_000", "٣", "9999999999999999999999",
        "18446744073709551616", "1e3", "\u{0}", " 1", "1 ",
    ];
    for t in texts {
        let fd = parse_ext_fd(&format!("f:{}", t));
        assert_eq!(fd.ok().map(|(_, fd)| fd), t.parse::<i32>().ok(), "{}", t);
        let port = parse_port_remap(&format!("1:{}", t));
        assert_eq!(port.ok().map(|(_, port)| port), t.parse::<u16>().ok(), "{}", t);
    }
}

#[test]
fn what_is_printed_is_read_back() {
    for old_port in [0u16, 1, 9, 10, 80, 443, 8080, 65535] {
        for new_port in [0u16, 5, 10, 1024, 65535] {
            let s = format!("{}:{}", old_port, new_port);
            assert_eq!(parse_port_remap(&s), Ok((old_port, new_port)));
        }
    }
    for fd in [i32::MIN, -10, -1, 0, 1, 2, 10, i32::MAX] {
        let s = format!("name:{}", fd);
        assert_eq!(parse_ext_fd(&s), Ok(("name".to_string(), fd)));
    }
}

#[test]
fn shards_default_to_the_standard_streams() {
    assert_eq!(opts(Operation::Capture).shard_fds_or_default(), vec![1]);
    assert_eq!(opts(Operation::Serve).shard_fds_or_default(), vec![0]);
    assert_eq!(opts(Operation::Extract).shard_fds_or_default(), vec![0]);
    let mut given = opts(Operation::Capture);
    given.shard_fds = vec![7, 8];
    assert_eq!(given.shard_fds_or_default(), vec![7, 8]);
}

#[test]
fn progress_defaults_to_the_standard_error() {
    assert_eq!(opts(Operation::Serve).progress_fd_or_default(), 2);
    let mut given = opts(Operation::Serve);
    given.progress_fd = Some(9);
    assert_eq!(given.progress_fd_or_default(), 9);
}

#[test]
fn ports_are_remapped_only_when_serving() {
    for operation in [Operation::Capture, Operation::Serve, Operation::Extract] {
        let mut o = opts(operation);
        assert_eq!(o.check_tcp_listen_remap(), Ok(()));
        o.tcp_listen_remap = vec![(1, 2)];
        let refused = operation != Operation::Serve;
        assert_eq!(o.check_tcp_listen_remap().is_err(), refused);
    }
    let mut o = opts(Operation::Extract);
    o.tcp_listen_remap = vec![(1, 2)];
    assert_eq!(o.check_tcp_listen_remap(), Err(CliError::PortRemapNotServing));
    assert_eq!(
        CliError::PortRemapNotServing.message(),
        "TCP ports may only be remapped when serving"
    );
}
