use reduction_server::config::{buffer_bytes, Args, DataType, Mode};

fn args(client: bool, bench: bool, recv_threads: usize, send_threads: usize) -> Args {
    Args {
        verbose: false,
        client,
        bench,
        port: 8918,
        address: String::from("0.0.0.0"),
        count: 1024,
        try_count: 100,
        reduce_threads: 2,
        reduce_jobs: 2,
        recv_threads,
        send_threads,
        nchannel: 1,
        nreq: 1,
        nrank: 4,
        data_type: DataType::F32,
    }
}

#[test]
fn open_thread_numbers_become_the_number_of_ranks() {
    let a = args(false, false, 0, 0).resolve();
    assert_eq!((a.recv_threads, a.send_threads), (4, 4));
    let a = args(false, false, 2, 0).resolve();
    assert_eq!((a.recv_threads, a.send_threads), (2, 4));
    let a = a.resolve();
    assert_eq!((a.recv_threads, a.send_threads), (2, 4));
    assert_eq!((a.port, a.address.as_str(), a.count, a.nrank), (8918, "0.0.0.0", 1024, 4));
}

#[test]
fn client_comes_before_bench_and_bench_before_server() {
    assert_eq!(args(true, true, 0, 0).mode(), Mode::Client);
    assert_eq!(args(true, false, 0, 0).mode(), Mode::Client);
    assert_eq!(args(false, true, 0, 0).mode(), Mode::Bench);
    assert_eq!(args(false, false, 0, 0).mode(), Mode::Server);
}

#[test]
fn buffers_have_four_or_two_bytes_per_number() {
    assert_eq!(buffer_bytes(1024, DataType::F32), 4096);
    assert_eq!(buffer_bytes(1024, DataType::F16), 2048);
    assert_eq!(DataType::F32.size(), 4);
    assert_eq!(DataType::F16.size(), 2);
}
