//! All threads of a server and its clients together, on a network in memory.

use reduction_server::client::{do_client, Client, ClientAction, ClientEvent, ClientSetup};
use reduction_server::ready::{first_words, is_raised};
use reduction_server::reduce::reduce;
use reduction_server::reduce_loop::{ReduceAction, ReduceEvent, ReduceLoop, ReduceSetup};
use reduction_server::topology::{connections_of_thread, ranks_of_thread};
use reduction_server::transfer::{Direction, TransferAction, TransferEvent, TransferLoop, TransferSetup};

struct Scenario {
    nrank: usize,
    jobs: usize,
    reducers: usize,
    send_threads: usize,
    recv_threads: usize,
    nreq: usize,
    tries: usize,
    /// The step at which a rank leaves, if one does before all requests are answered.
    leaves: Option<u32>,
    seed: u64,
}

/// What rank `rank` sends in its request number `n`.
fn contribution(rank: usize, n: usize) -> Vec<f32> {
    (0..8).map(|k| (rank * 1000 + n * 10 + k) as f32).collect()
}

/// A channel on which messages arrive in the order in which they were sent.
#[derive(Default)]
struct Channel {
    sent: Vec<Vec<f32>>,
    sends_posted: usize,
    recvs_posted: usize,
}

fn random(seed: &mut u64) -> u64 {
    *seed ^= *seed << 13;
    *seed ^= *seed >> 7;
    *seed ^= *seed << 17;
    *seed >> 11
}

fn run(sc: Scenario) {
    let mut seed = sc.seed;
    let mut up: Vec<Channel> = (0..sc.nrank).map(|_| Channel::default()).collect();
    let mut down: Vec<Channel> = (0..sc.nrank).map(|_| Channel::default()).collect();
    let (send_word, recv_word) = first_words(sc.send_threads);
    let mut send_flags = vec![vec![send_word; sc.reducers]; sc.jobs];
    let mut recv_flags = vec![vec![recv_word; sc.reducers]; sc.jobs];
    let mut sbufs = vec![vec![0.0f32; 8]; sc.jobs];
    let mut rbufs = vec![vec![vec![0.0f32; 8]; sc.nrank]; sc.jobs];
    // Requests under way for each job.
    let mut open = vec![0usize; sc.jobs];
    // Transfers complete for each job and rank, and sums for each job and reduce thread.
    let mut sends_done = vec![vec![0usize; sc.nrank]; sc.jobs];
    let mut recvs_done = vec![vec![0usize; sc.nrank]; sc.jobs];
    let mut last_recv = vec![vec![None; sc.nrank]; sc.jobs];
    let mut job_sums = vec![vec![0usize; sc.reducers]; sc.jobs];
    let mut own_sums = vec![0usize; sc.reducers];
    let mut sums = 0usize;
    let mut rank = 0usize;

    let worker = |direction: Direction, thread: usize, threads: usize| {
        let ranks = ranks_of_thread(sc.nrank, threads, thread);
        assert_eq!(ranks.len(), connections_of_thread(sc.nrank, threads));
        let setup = TransferSetup {
            direction,
            thread,
            nrank: sc.nrank,
            jobs: sc.jobs,
            flags: sc.reducers,
            links: ranks.len(),
        };
        (direction, ranks, TransferLoop::<usize>::new(setup))
    };
    let mut workers: Vec<_> = (0..sc.send_threads)
        .map(|i| worker(Direction::Send, i, sc.send_threads))
        .chain((0..sc.recv_threads).map(|i| worker(Direction::Recv, i, sc.recv_threads)))
        .collect();
    let mut reducers: Vec<ReduceLoop> = (0..sc.reducers)
        .map(|_| {
            ReduceLoop::new(ReduceSetup {
                nrank: sc.nrank,
                jobs: sc.jobs,
                send_threads: sc.send_threads,
                recv_threads: sc.recv_threads,
            })
        })
        .collect();
    let mut clients: Vec<Client<usize>> = (0..sc.nrank)
        .map(|_| Client::new(ClientSetup { nreq: sc.nreq, try_count: sc.tries, comms: 1 }))
        .collect();
    let mut answers = vec![0usize; sc.nrank];

    let part = 8 / sc.reducers;
    for step in 0..3_000_000u32 {
        let done = clients.iter().all(|c| matches!(c.action(), ClientAction::Finish));
        let left = sc.leaves.is_some_and(|at| step > at);
        if sc.leaves == Some(step) {
            rank -= 1;
        } else if rank < sc.nrank && step % 50 == 0 && !done && !left {
            rank += 1;
        } else if done && rank == sc.nrank {
            // A rank leaves, and all threads of the server end.
            rank -= 1;
        }
        let ended = workers.iter().all(|w| matches!(w.2.action(), TransferAction::Exit))
            && reducers.iter().all(|r| matches!(r.action(), ReduceAction::Exit));
        if ended {
            if left {
                return;
            }
            assert!(done);
            assert_eq!(sums, sc.tries * sc.reducers);
            assert_eq!(answers, vec![sc.tries; sc.nrank]);
            return;
        }
        let chance = random(&mut seed) % 3 != 0;
        let pick = random(&mut seed) as usize % (workers.len() + reducers.len() + clients.len());
        if pick < workers.len() {
            let (direction, ranks, w) = &mut workers[pick];
            let flags = match direction {
                Direction::Send => &mut send_flags,
                Direction::Recv => &mut recv_flags,
            };
            match w.action() {
                TransferAction::Continue | TransferAction::Nap => w.step(TransferEvent::Continue),
                TransferAction::LoadRank => w.step(TransferEvent::Rank(rank)),
                TransferAction::LoadFlag { job, flag } => w.step(TransferEvent::Flag(flags[job][flag])),
                TransferAction::Post { job, link } => {
                    if !chance {
                        w.step(TransferEvent::Posted(None));
                    } else {
                        open[job] += 1;
                        let ch = if *direction == Direction::Send { &mut down[ranks[link]] } else { &mut up[ranks[link]] };
                        let number = if *direction == Direction::Send { &mut ch.sends_posted } else { &mut ch.recvs_posted };
                        *number += 1;
                        w.step(TransferEvent::Posted(Some(*number - 1)));
                    }
                }
                TransferAction::Test { job, link } => {
                    let number = *w.request(link).unwrap();
                    let complete = match direction {
                        Direction::Send => {
                            if chance {
                                assert_eq!(down[ranks[link]].sent.len(), number);
                                down[ranks[link]].sent.push(sbufs[job].clone());
                            }
                            chance
                        }
                        Direction::Recv => {
                            let arrived = up[ranks[link]].sent.len() > number;
                            if arrived {
                                rbufs[job][ranks[link]] = up[ranks[link]].sent[number].clone();
                            }
                            arrived
                        }
                    };
                    open[job] -= complete as usize;
                    if complete && *direction == Direction::Send {
                        sends_done[job][ranks[link]] += 1;
                    } else if complete {
                        recvs_done[job][ranks[link]] += 1;
                        last_recv[job][ranks[link]] = Some(number);
                    }
                    w.step(TransferEvent::Tested(complete));
                }
                TransferAction::MarkFlag { job, flag, bit } => {
                    assert_eq!(flags[job][flag] & bit, 0);
                    flags[job][flag] += bit;
                    w.step(TransferEvent::Continue);
                }
                TransferAction::Exit => {}
            }
        } else if pick < workers.len() + reducers.len() {
            let i = pick - workers.len();
            let r = &mut reducers[i];
            match r.action() {
                ReduceAction::Continue | ReduceAction::Nap | ReduceAction::Allocate => r.step(ReduceEvent::Continue),
                ReduceAction::LoadRank => r.step(ReduceEvent::Rank(rank)),
                ReduceAction::LoadSend { job } => r.step(ReduceEvent::Word(send_flags[job][i])),
                ReduceAction::LoadRecv { job } => r.step(ReduceEvent::Word(recv_flags[job][i])),
                ReduceAction::Reduce { job } => {
                    // Nothing of the job is on its way while it is summed.
                    assert_eq!(open[job], 0);
                    // Every rank has contributed once more than the job was summed, and was sent
                    // all its sums; the contribution has the number of the sum.
                    let k = job_sums[job][i];
                    assert_eq!(recvs_done[job], vec![k + 1; sc.nrank]);
                    assert_eq!(last_recv[job], vec![Some(own_sums[i]); sc.nrank]);
                    assert_eq!(sends_done[job], vec![k; sc.nrank]);
                    job_sums[job][i] += 1;
                    own_sums[i] += 1;
                    let range = i * part..(i + 1) * part;
                    let parts: Vec<&[f32]> = rbufs[job].iter().map(|b| &b[range.clone()]).collect();
                    reduce(&mut sbufs[job][range.clone()], 0, &parts, &vec![0; parts.len()], &|x: f32, y: f32| x + y);
                    sums += 1;
                    r.step(ReduceEvent::Continue);
                }
                ReduceAction::ClearRecv { job } => {
                    for t in 0..sc.recv_threads {
                        assert!(is_raised(recv_flags[job][i], t));
                    }
                    recv_flags[job][i] = 0;
                    r.step(ReduceEvent::Continue);
                }
                ReduceAction::ClearSend { job } => {
                    send_flags[job][i] = 0;
                    r.step(ReduceEvent::Continue);
                }
                ReduceAction::Exit => {}
            }
        } else {
            let i = pick - workers.len() - reducers.len();
            let c = &mut clients[i];
            match c.action() {
                ClientAction::Continue => {
                    do_client(c, ClientEvent::Continue);
                }
                ClientAction::PostSend { .. } => {
                    let n = up[i].sends_posted;
                    up[i].sends_posted += 1;
                    up[i].sent.push(contribution(i, n));
                    do_client(c, ClientEvent::Posted(Some(n)));
                }
                ClientAction::PostRecv { .. } => {
                    let n = down[i].recvs_posted;
                    down[i].recvs_posted += 1;
                    do_client(c, ClientEvent::Posted(Some(n)));
                }
                ClientAction::TestSend { .. } => {
                    do_client(c, ClientEvent::Tested(chance));
                }
                ClientAction::TestRecv { slot, comm } => {
                    let n = *c.request(slot, comm, Direction::Recv).unwrap();
                    let arrived = down[i].sent.len() > n;
                    if arrived {
                        // The answer to a request is the sum of that request over all ranks.
                        let expect: Vec<f32> =
                            (0..8).map(|k| (0..sc.nrank).map(|r| contribution(r, n)[k]).sum()).collect();
                        assert_eq!(down[i].sent[n], expect);
                        answers[i] += 1;
                    }
                    do_client(c, ClientEvent::Tested(arrived));
                }
                ClientAction::Finish => {}
            }
        }
    }
    panic!("the run does not come to an end");
}

#[test]
fn one_rank_gets_its_own_numbers_back() {
    run(Scenario { nrank: 1, jobs: 1, reducers: 1, send_threads: 1, recv_threads: 1, nreq: 1, tries: 20, leaves: None, seed: 1 });
}

#[test]
fn ranks_get_the_sums_of_all_ranks() {
    for seed in 1..6 {
        run(Scenario { nrank: 4, jobs: 2, reducers: 2, send_threads: 4, recv_threads: 4, nreq: 1, tries: 20, leaves: None, seed });
    }
}

#[test]
fn ranks_share_transfer_threads() {
    for seed in 10..15 {
        run(Scenario { nrank: 6, jobs: 3, reducers: 2, send_threads: 2, recv_threads: 3, nreq: 3, tries: 30, leaves: None, seed });
    }
}

#[test]
fn no_job_is_summed_while_a_stopped_thread_has_requests_open() {
    for seed in 20..60 {
        run(Scenario {
            nrank: 4,
            jobs: 2,
            reducers: 2,
            send_threads: 2,
            recv_threads: 4,
            nreq: 2,
            tries: 1000,
            leaves: Some(1000 + 37 * seed as u32),
            seed,
        });
    }
}
