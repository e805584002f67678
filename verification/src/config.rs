//! What the program is told when it is started.

use vstd::prelude::*;

verus! {

/// The type of the numbers that are reduced.
#[derive(Clone, Copy, Debug, PartialEq, Eq, Structural)]
pub enum DataType {
    /// Single precision, four bytes.
    F32,
    /// Half precision, two bytes.
    F16,
}

impl DataType {
    /// The number of bytes of one number.
    pub open spec fn bytes(self) -> int {
        match self {
            DataType::F32 => 4,
            DataType::F16 => 2,
        }
    }

    /// The number of bytes of one number.
    pub fn size(self) -> (n: usize)
        ensures
            n == self.bytes(),
    {
        match self {
            DataType::F32 => 4,
            DataType::F16 => 2,
        }
    }
}

/// The arguments of the program.
#[derive(Debug)]
pub struct Args {
    pub verbose: bool,
    /// Run as a client of a server.
    pub client: bool,
    /// Run as the peer of a client, without reducing anything.
    pub bench: bool,
    pub port: u16,
    /// The address to listen on or, for a client, the addresses to connect to.
    pub address: String,
    /// How many numbers a buffer holds.
    pub count: usize,
    /// How many requests a client makes.
    pub try_count: usize,
    /// How many threads share the work on one job.
    pub reduce_threads: usize,
    /// How many jobs are worked on in turn.
    pub reduce_jobs: usize,
    /// How many threads receive; zero stands for one per rank.
    pub recv_threads: usize,
    /// How many threads send; zero stands for one per rank.
    pub send_threads: usize,
    /// How many channels a client opens to each address.
    pub nchannel: usize,
    /// How many requests of a client may be under way at a time.
    pub nreq: usize,
    /// How many ranks take part.
    pub nrank: usize,
    pub data_type: DataType,
}

/// What the program is run as.
#[derive(Clone, Copy, Debug, PartialEq, Eq, Structural)]
pub enum Mode {
    Client,
    Bench,
    Server,
}

impl Args {
    /// The arguments with the number of ranks in place of a number of transfer threads that was
    /// left open.
    pub open spec fn resolved(self) -> Args {
        Args {
            recv_threads: if self.recv_threads == 0 { self.nrank } else { self.recv_threads },
            send_threads: if self.send_threads == 0 { self.nrank } else { self.send_threads },
            ..self
        }
    }

    /// Puts the number of ranks in place of a number of transfer threads that was left open.
    pub fn resolve(self) -> (args: Args)
        ensures
            args == self.resolved(),
    {
        let mut args = self;
        if args.recv_threads == 0 {
            args.recv_threads = args.nrank;
        }
        if args.send_threads == 0 {
            args.send_threads = args.nrank;
        }
        args
    }

    /// What the program is run as.
    pub open spec fn mode_of(self) -> Mode {
        if self.client {
            Mode::Client
        } else if self.bench {
            Mode::Bench
        } else {
            Mode::Server
        }
    }

    /// What the program is run as: a client if that is asked for, else a bench if that is, else
    /// a server.
    pub fn mode(&self) -> (m: Mode)
        ensures
            m == (if self.client {
                Mode::Client
            } else if self.bench {
                Mode::Bench
            } else {
                Mode::Server
            }),
            m == self.mode_of(),
    {
        if self.client {
            Mode::Client
        } else if self.bench {
            Mode::Bench
        } else {
            Mode::Server
        }
    }
}

/// The number of bytes of a buffer of `count` numbers.
pub fn buffer_bytes(count: usize, data_type: DataType) -> (bytes: usize)
    requires
        count * data_type.bytes() <= usize::MAX,
    ensures
        bytes == count * data_type.bytes(),
{
    count * data_type.size()
}

/// Resolving arguments that are resolved changes nothing, and with a rank there is a transfer
/// thread in each direction.
pub proof fn law_resolved(args: Args)
    ensures
        args.resolved().resolved() == args.resolved(),
        args.nrank > 0 ==> args.resolved().recv_threads > 0 && args.resolved().send_threads > 0,
{
}

/// A number of transfer threads that was given stays, one that was left open becomes the number of
/// ranks, and nothing else changes: the arguments are those that agree with the given ones in all
/// but these two.
pub proof fn law_resolved_threads(args: Args, other: Args)
    requires
        other == (Args { recv_threads: other.recv_threads, send_threads: other.send_threads, ..args }),
        other.recv_threads == args.recv_threads || (args.recv_threads == 0 && other.recv_threads == args.nrank),
        other.send_threads == args.send_threads || (args.send_threads == 0 && other.send_threads == args.nrank),
        args.nrank > 0 ==> other.recv_threads > 0 && other.send_threads > 0,
    ensures
        other == args.resolved(),
{
}

/// The program is a client exactly when that is asked for, a bench exactly when that is asked for
/// and a client is not, and a server when neither is; nothing else counts.
pub proof fn law_mode(args: Args, other: Args)
    ensures
        args.mode_of() == Mode::Client <==> args.client,
        args.mode_of() == Mode::Bench <==> args.bench && !args.client,
        args.mode_of() == Mode::Server <==> !args.bench && !args.client,
        args.client == other.client && args.bench == other.bench ==> args.mode_of() == other.mode_of(),
{
}

/// Of two buffers of the same number of bytes, the one of half precision holds twice as many
/// numbers; a number of single precision has 32 bits.
pub proof fn law_bytes(count: int)
    ensures
        8 * DataType::F32.bytes() == 32,
        (2 * count) * DataType::F16.bytes() == count * DataType::F32.bytes(),
{
}

} // verus!
