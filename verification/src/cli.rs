//! The command line of the streamer.

use crate::text::{
    all_digits, chars_of, colon_pair, decimal, digits_value, i32_in_text, is_digit, is_only_colon,
    law_texts_are_parted_at_the_colon, lemma_decimal, magnitude, read_magnitude, u16_in_text,
};
use vstd::prelude::*;

verus! {

/// An outside type: a path in the file system.
#[verifier::external_type_specification]
#[verifier::external_body]
pub struct ExPathBuf(std::path::PathBuf);

/// Why an argument is refused.
#[derive(Debug, Clone, Copy, PartialEq, Eq, Structural)]
pub enum CliError {
    /// An external file is not a name and a number with a colon between them.
    ExtFdFormat,
    /// The number of an external file is no number.
    ExtFdNotInteger,
    /// A port remap is not two numbers with a colon between them.
    PortRemapFormat,
    /// The first number of a port remap is no port.
    OldPortNotInteger,
    /// The second number of a port remap is no port.
    NewPortNotInteger,
    /// Ports are to be remapped while the image is not served.
    PortRemapNotServing,
}

impl CliError {
    /// The text shown to the user.
    pub open spec fn text(self) -> Seq<char> {
        match self {
            CliError::ExtFdFormat => "Format is filename:fd"@,
            CliError::ExtFdNotInteger => "Provided ext fd is not an integer"@,
            CliError::PortRemapFormat => "Format is old_port:new_port"@,
            CliError::OldPortNotInteger => "Provided old_port is not a u16 integer"@,
            CliError::NewPortNotInteger => "Provided new_port is not a u16 integer"@,
            CliError::PortRemapNotServing => "TCP ports may only be remapped when serving"@,
        }
    }

    /// Says in words what went wrong.
    pub fn message(&self) -> (s: &'static str)
        ensures
            s@ == self.text(),
    {
        match self {
            CliError::ExtFdFormat => "Format is filename:fd",
            CliError::ExtFdNotInteger => "Provided ext fd is not an integer",
            CliError::PortRemapFormat => "Format is old_port:new_port",
            CliError::OldPortNotInteger => "Provided old_port is not a u16 integer",
            CliError::NewPortNotInteger => "Provided new_port is not a u16 integer",
            CliError::PortRemapNotServing => "TCP ports may only be remapped when serving",
        }
    }
}

/// The external file that a text names: `filename:fd`.
pub open spec fn ext_fd_in_text(s: Seq<char>) -> Result<(Seq<char>, i32), CliError> {
    match colon_pair(s) {
        Some((filename, fd)) => match i32_in_text(fd) {
            Some(fd) => Ok((filename, fd)),
            None => Err(CliError::ExtFdNotInteger),
        },
        None => Err(CliError::ExtFdFormat),
    }
}

/// The port remap that a text names: `old_port:new_port`.
pub open spec fn port_remap_in_text(s: Seq<char>) -> Result<(u16, u16), CliError> {
    match colon_pair(s) {
        Some((old_port, new_port)) => match (u16_in_text(old_port), u16_in_text(new_port)) {
            (Some(old_port), Some(new_port)) => Ok((old_port, new_port)),
            (None, _) => Err(CliError::OldPortNotInteger),
            (_, None) => Err(CliError::NewPortNotInteger),
        },
        None => Err(CliError::PortRemapFormat),
    }
}

/// A colon that is the only one is the one at which a text is parted.
proof fn lemma_colon_pair(s: Seq<char>, i: int)
    requires
        is_only_colon(s, i),
    ensures
        colon_pair(s) == Some((s.take(i), s.skip(i + 1))),
{
    let k = choose|k: int| is_only_colon(s, k);
    assert(is_only_colon(s, k));
    if k != i {
        assert(s[k] != ':');
    }
}

/// Finds the colon of a text that holds exactly one.
fn only_colon(chars: &Vec<char>) -> (r: Option<usize>)
    ensures
        match r {
            Some(i) => is_only_colon(chars@, i as int),
            None => colon_pair(chars@) is None,
        },
{
    let mut found: Option<usize> = None;
    let mut i: usize = 0;
    while i < chars.len()
        invariant
            i <= chars@.len(),
            match found {
                Some(k) => {
                    &&& k < i
                    &&& chars@[k as int] == ':'
                    &&& forall|j: int| 0 <= j < i && j != k ==> #[trigger] chars@[j] != ':'
                },
                None => forall|j: int| 0 <= j < i ==> #[trigger] chars@[j] != ':',
            },
        decreases chars@.len() - i,
    {
        if chars[i] == ':' {
            match found {
                Some(k) => {
                    proof {
                        assert forall|n: int| !is_only_colon(chars@, n) by {
                            if is_only_colon(chars@, n) {
                                assert(chars@[k as int] == ':');
                                assert(chars@[i as int] == ':');
                            }
                        }
                    }
                    return None;
                },
                None => {
                    found = Some(i);
                },
            }
        }
        i = i + 1;
    }
    found
}

/// Reads the `u16` between two positions of a text.
fn read_u16(chars: &Vec<char>, from: usize, to: usize) -> (r: Option<u16>)
    requires
        from <= to <= chars@.len(),
    ensures
        r == u16_in_text(chars@.subrange(from as int, to as int)),
{
    let ghost part = chars@.subrange(from as int, to as int);
    let signed = from < to && chars[from] == '+';
    let start: usize = if signed {
        from + 1
    } else {
        from
    };
    proof {
        if signed {
            assert(part[0] == '+');
            assert(part.skip(1) =~= chars@.subrange(start as int, to as int));
        } else if part.len() > 0 {
            assert(part[0] == chars@[from as int]);
        }
    }
    match read_magnitude(chars, start, to, 65535) {
        Some(n) => Some(n as u16),
        None => None,
    }
}

/// Reads the `i32` between two positions of a text.
fn read_i32(chars: &Vec<char>, from: usize, to: usize) -> (r: Option<i32>)
    requires
        from <= to <= chars@.len(),
    ensures
        r == i32_in_text(chars@.subrange(from as int, to as int)),
{
    let ghost part = chars@.subrange(from as int, to as int);
    let negative = from < to && chars[from] == '-';
    let signed = negative || (from < to && chars[from] == '+');
    let start: usize = if signed {
        from + 1
    } else {
        from
    };
    proof {
        if part.len() > 0 {
            assert(part[0] == chars@[from as int]);
        }
        if signed {
            assert(part.skip(1) =~= chars@.subrange(start as int, to as int));
        }
    }
    if negative {
        match read_magnitude(chars, start, to, 2147483648) {
            Some(n) => Some((-(n as i64)) as i32),
            None => None,
        }
    } else {
        match read_magnitude(chars, start, to, 2147483647) {
            Some(n) => Some(n as i32),
            None => None,
        }
    }
}

/// Reads an external file from an argument of the form `filename:fd`.
pub fn parse_ext_fd(s: &str) -> (r: Result<(String, i32), CliError>)
    ensures
        match ext_fd_in_text(s@) {
            Ok((filename, fd)) => r matches Ok(x) && x.0@ == filename && x.1 == fd,
            Err(e) => r matches Err(x) && x == e,
        },
{
    let chars = chars_of(s);
    let end: usize = chars.len();
    match only_colon(&chars) {
        Some(i) => {
            proof {
                lemma_colon_pair(s@, i as int);
                assert(s@.skip(i + 1) =~= s@.subrange(i + 1, s@.len() as int));
            }
            match read_i32(&chars, i + 1, end) {
                Some(fd) => {
                    let filename = s.substring_char(0, i).to_owned();
                    assert(filename@ =~= s@.take(i as int));
                    Ok((filename, fd))
                },
                None => Err(CliError::ExtFdNotInteger),
            }
        },
        None => Err(CliError::ExtFdFormat),
    }
}

/// Reads a port remap from an argument of the form `old_port:new_port`.
pub fn parse_port_remap(s: &str) -> (r: Result<(u16, u16), CliError>)
    ensures
        r == port_remap_in_text(s@),
{
    let chars = chars_of(s);
    let end: usize = chars.len();
    match only_colon(&chars) {
        Some(i) => {
            proof {
                lemma_colon_pair(s@, i as int);
                assert(s@.take(i as int) =~= s@.subrange(0, i as int));
                assert(s@.skip(i + 1) =~= s@.subrange(i + 1, s@.len() as int));
            }
            let old_port = match read_u16(&chars, 0, i) {
                Some(port) => port,
                None => {
                    return Err(CliError::OldPortNotInteger);
                },
            };
            match read_u16(&chars, i + 1, end) {
                Some(new_port) => Ok((old_port, new_port)),
                None => Err(CliError::NewPortNotInteger),
            }
        },
        None => Err(CliError::PortRemapFormat),
    }
}

/// What the streamer does.
#[derive(Debug, Clone, Copy, PartialEq, Eq, Structural)]
pub enum Operation {
    /// Capture a client image.
    Capture,
    /// Serve a captured client image to client.
    Serve,
    /// Extract a captured client image to the images directory.
    Extract,
}

/// The arguments of the streamer.
#[derive(Debug, PartialEq)]
pub struct Opts {
    /// Images directory where the client UNIX socket is created during streaming operations.
    pub images_dir: std::path::PathBuf,
    /// File descriptors of shards. Defaults to 0 or 1 depending on the operation.
    pub shard_fds: Vec<i32>,
    /// External files to put into or take out of the image, each with the file descriptor of the
    /// pipe that carries its contents.
    pub ext_file_fds: Vec<(String, i32)>,
    /// File descriptor where to report progress. Defaults to 2.
    pub progress_fd: Option<i32>,
    /// When serving the image, remap on the fly the TCP listen socket ports. May only be used
    /// with the serve operation.
    pub tcp_listen_remap: Vec<(u16, u16)>,
    /// What to do.
    pub operation: Operation,
}

impl Opts {
    /// The file descriptors of the shards: a capture writes to the standard output, all else
    /// reads from the standard input, unless the arguments say otherwise.
    pub fn shard_fds_or_default(&self) -> (fds: Vec<i32>)
        ensures
            fds@ == if self.shard_fds@.len() > 0 {
                self.shard_fds@
            } else if self.operation is Capture {
                seq![1i32]
            } else {
                seq![0i32]
            },
    {
        if self.shard_fds.len() > 0 {
            let fds = self.shard_fds.clone();
            assert(fds@ =~= self.shard_fds@);
            return fds;
        }
        let mut fds: Vec<i32> = Vec::new();
        match self.operation {
            Operation::Capture => fds.push(1),
            _ => fds.push(0),
        }
        assert(fds@ =~= if self.operation is Capture {
            seq![1i32]
        } else {
            seq![0i32]
        });
        fds
    }

    /// The file descriptor where to report progress.
    pub fn progress_fd_or_default(&self) -> (fd: i32)
        ensures
            fd == match self.progress_fd {
                Some(fd) => fd,
                None => 2,
            },
    {
        match self.progress_fd {
            Some(fd) => fd,
            None => 2,
        }
    }

    /// Checks that ports are remapped only when the image is served.
    pub fn check_tcp_listen_remap(&self) -> (r: Result<(), CliError>)
        ensures
            r == if self.tcp_listen_remap@.len() > 0 && !(self.operation is Serve) {
                Err::<(), CliError>(CliError::PortRemapNotServing)
            } else {
                Ok::<(), CliError>(())
            },
    {
        let serving = match self.operation {
            Operation::Serve => true,
            _ => false,
        };
        if self.tcp_listen_remap.len() > 0 && !serving {
            Err(CliError::PortRemapNotServing)
        } else {
            Ok(())
        }
    }
}

/// The decimal digits of a number, behind a minus sign if it is negative.
pub open spec fn signed_decimal(n: int) -> Seq<char> {
    if n < 0 {
        seq!['-'] + decimal((-n) as nat)
    } else {
        decimal(n as nat)
    }
}

/// Digits hold no colon and begin with no sign.
proof fn lemma_digits_are_plain(s: Seq<char>)
    requires
        all_digits(s),
    ensures
        forall|i: int| 0 <= i < s.len() ==> #[trigger] s[i] != ':',
        s.len() > 0 ==> s[0] != '+' && s[0] != '-',
{
    assert forall|i: int| 0 <= i < s.len() implies #[trigger] s[i] != ':' by {
        assert(is_digit(s[i]));
    }
    if s.len() > 0 {
        assert(is_digit(s[0]));
    }
}

/// Two numbers with a colon between them are read as the port remap that they stand for.
pub proof fn law_port_remap_comes_back(old_port: u16, new_port: u16)
    ensures
        port_remap_in_text(decimal(old_port as nat).push(':') + decimal(new_port as nat)) == Ok::<
            (u16, u16),
            CliError,
        >((old_port, new_port)),
{
    let a = decimal(old_port as nat);
    let b = decimal(new_port as nat);
    let s = a.push(':') + b;
    lemma_decimal(old_port as nat);
    lemma_decimal(new_port as nat);
    lemma_digits_are_plain(a);
    lemma_digits_are_plain(b);
    let i = a.len() as int;
    assert(s.take(i) =~= a);
    assert(s.skip(i + 1) =~= b);
    assert(is_only_colon(s, i)) by {
        assert forall|j: int| 0 <= j < s.len() && j != i implies #[trigger] s[j] != ':' by {
            if j < i {
                assert(s[j] == a[j]);
            } else {
                assert(s[j] == b[j - i - 1]);
            }
        }
    }
    lemma_colon_pair(s, i);
}

/// A name without a colon and a number, with a colon between them, are read as the external file
/// that they stand for.
pub proof fn law_ext_fd_comes_back(filename: Seq<char>, fd: i32)
    requires
        !filename.contains(':'),
    ensures
        ext_fd_in_text(filename.push(':') + signed_decimal(fd as int)) == Ok::<
            (Seq<char>, i32),
            CliError,
        >((filename, fd)),
{
    let digits = decimal(
        if fd < 0 {
            (-(fd as int)) as nat
        } else {
            fd as nat
        },
    );
    let b = signed_decimal(fd as int);
    let s = filename.push(':') + b;
    lemma_decimal(
        if fd < 0 {
            (-(fd as int)) as nat
        } else {
            fd as nat
        },
    );
    lemma_digits_are_plain(digits);
    let i = filename.len() as int;
    assert(s.take(i) =~= filename);
    assert(s.skip(i + 1) =~= b);
    if fd < 0 {
        assert(b.skip(1) =~= digits);
    }
    assert(is_only_colon(s, i)) by {
        assert forall|j: int| 0 <= j < s.len() && j != i implies #[trigger] s[j] != ':' by {
            if j < i {
                assert(s[j] == filename[j]);
                assert(filename.contains(filename[j]));
            } else {
                assert(s[j] == b[j - i - 1]);
                if fd < 0 {
                    if j - i - 1 > 0 {
                        assert(b[j - i - 1] == digits[j - i - 2]);
                    }
                } else {
                    assert(b[j - i - 1] == digits[j - i - 1]);
                }
            }
        }
    }
    lemma_colon_pair(s, i);
}

/// An argument names an external file exactly if it holds one colon with a number behind it; the name is
/// all that is before the colon. Otherwise it is refused for its form, or else for its number.
pub proof fn law_external_files_are_read(a: Seq<char>, b: Seq<char>, c: Seq<char>)
    ensures
        !a.contains(':') && !b.contains(':') ==> (match i32_in_text(b) {
            Some(fd) => ext_fd_in_text(a + seq![':'] + b) == Ok::<(Seq<char>, i32), CliError>(
                (a, fd),
            ),
            None => ext_fd_in_text(a + seq![':'] + b) == Err::<(Seq<char>, i32), CliError>(
                CliError::ExtFdNotInteger,
            ),
        }),
        !a.contains(':') ==> ext_fd_in_text(a) == Err::<(Seq<char>, i32), CliError>(
            CliError::ExtFdFormat,
        ),
        ext_fd_in_text(a + seq![':'] + b + seq![':'] + c) == Err::<(Seq<char>, i32), CliError>(
            CliError::ExtFdFormat,
        ),
{
    law_texts_are_parted_at_the_colon(a, b, c);
}

/// An argument remaps a port exactly if it holds one colon with a port on each side. Otherwise it is refused
/// for its form, or else for the first of the two that is no port.
pub proof fn law_port_remaps_are_read(a: Seq<char>, b: Seq<char>, c: Seq<char>)
    ensures
        !a.contains(':') && !b.contains(':') ==> {
            let r = port_remap_in_text(a + seq![':'] + b);
            &&& u16_in_text(a) is Some && u16_in_text(b) is Some ==> r == Ok::<
                (u16, u16),
                CliError,
            >((u16_in_text(a)->0, u16_in_text(b)->0))
            &&& u16_in_text(a) is None ==> r == Err::<(u16, u16), CliError>(
                CliError::OldPortNotInteger,
            )
            &&& u16_in_text(a) is Some && u16_in_text(b) is None ==> r == Err::<
                (u16, u16),
                CliError,
            >(CliError::NewPortNotInteger)
        },
        !a.contains(':') ==> port_remap_in_text(a) == Err::<(u16, u16), CliError>(
            CliError::PortRemapFormat,
        ),
        port_remap_in_text(a + seq![':'] + b + seq![':'] + c) == Err::<(u16, u16), CliError>(
            CliError::PortRemapFormat,
        ),
{
    law_texts_are_parted_at_the_colon(a, b, c);
}

/// Every refusal says what was expected.
pub proof fn law_refusals_say_what_was_expected()
    ensures
        CliError::ExtFdFormat.text() == "Format is filename:fd"@,
        CliError::ExtFdNotInteger.text() == "Provided ext fd is not an integer"@,
        CliError::PortRemapFormat.text() == "Format is old_port:new_port"@,
        CliError::OldPortNotInteger.text() == "Provided old_port is not a u16 integer"@,
        CliError::NewPortNotInteger.text() == "Provided new_port is not a u16 integer"@,
        CliError::PortRemapNotServing.text() == "TCP ports may only be remapped when serving"@,
{
}

} // verus!
