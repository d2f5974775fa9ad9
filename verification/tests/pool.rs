use multi_iterate_mut::PROB_SIZE;
use multi_iterate_mut::aux_op::AuxOp;
use multi_iterate_mut::checks::check_eq;
use multi_iterate_mut::chunk_processor::ChunkProcessor;
use multi_iterate_mut::cores::Cores;
use multi_iterate_mut::example::{make_example_data, Count, ExampleItem};
use multi_iterate_mut::fuzz::{fuzz_iteration, fuzz_iteration2, FuzzOp};
use multi_iterate_mut::mypool3::{divide, execute_all, execute_all2, Pool, MAX_THREADS};
use multi_iterate_mut::parts::{join, split};
use multi_iterate_mut::passes::{AddOwn, CountOwnFirst};
use multi_iterate_mut::ptr_holder_1::{ItemBatch1, PtrHolder1, Task1};
use multi_iterate_mut::ptr_holder_2::PtrHolder2;
use multi_iterate_mut::scheduler::{AuxScheduler, AuxTask, DeferStore};
use multi_iterate_mut::trials::{
    do_mypool3_test1, test_determinism_iteration, CountingBatch, Replace, ReplaceItem,
};
use multi_iterate_mut::xor_rng::XorRng;

fn pool() -> Pool {
    Pool::with_cores(&[0, 1, 2, 3, 4, 5, 6, 7])
}

fn fuzz(pool: &mut Pool, seed: u32) {
    let outcome = fuzz_iteration(pool, seed);
    check_eq(&outcome.data, &outcome.data2).unwrap();
    check_eq(&outcome.aux, &outcome.aux2).unwrap();
}

fn fuzz2(pool: &mut Pool, seed: u32) {
    let outcome = fuzz_iteration2(pool, seed);
    check_eq(&outcome.data, &outcome.datab).unwrap();
    check_eq(&outcome.aux0, &outcome.aux0b).unwrap();
    check_eq(&outcome.aux1, &outcome.aux1b).unwrap();
}

#[test]
fn mypool3_test1() {
    let (data, aux) = do_mypool3_test1(&mut pool());
    assert_eq!(aux[0], 50);
    assert_eq!(data.len(), MAX_THREADS);
    for (idx, item) in data.iter().enumerate() {
        assert_eq!(idx + 1, *item);
    }
}

#[test]
fn mypool3_fuzz0() {
    fuzz(&mut pool(), 0);
}

#[test]
fn mypool3_fuzz1() {
    fuzz(&mut pool(), 1);
}

#[test]
fn mypool3_fuzz2() {
    fuzz(&mut pool(), 2);
}

#[test]
fn mypool3_fuzz4() {
    fuzz(&mut pool(), 4);
}

#[test]
fn mypool3_fuzz2_0() {
    fuzz2(&mut pool(), 0);
}

#[test]
fn mypool3_fuzz_many1() {
    for x in 0..1000 {
        println!("Fuzzing {}", x);
        fuzz(&mut pool(), x);
    }
}

#[test]
fn mypool3_fuzz_many2() {
    for x in 0..1000 {
        println!("Fuzzing2 {}", x);
        fuzz2(&mut pool(), x);
    }
}

#[test]
fn mypool3_try_test_determinism() {
    let mut pool = pool();
    for i in 0..1000 {
        println!("Determinism pass {}", i);
        let runs = test_determinism_iteration(&mut pool, i);
        check_eq(&runs.aux_a, &runs.aux_b).unwrap();
        check_eq(&runs.data_a, &runs.data_b).unwrap();
    }
}

#[test]
fn nulltest() {
    println!("Size: {}", std::mem::size_of::<Pool>());
}

#[test]
fn the_outcome_of_a_fuzz_run_is_not_its_input() {
    let mut rng = XorRng::new(1);
    let outcome = fuzz_iteration(&mut pool(), 1);
    let data_size = multi_iterate_mut::xor_rng::gen_size(&mut rng);
    let aux_size = multi_iterate_mut::xor_rng::gen_size(&mut rng);
    assert_eq!(outcome.data.len(), data_size);
    assert_eq!(outcome.aux.len(), aux_size);
    let data = multi_iterate_mut::xor_rng::gen_data(&mut rng, data_size);
    let aux = multi_iterate_mut::xor_rng::gen_data(&mut rng, aux_size);
    for (before, after) in data.iter().zip(outcome.data.iter()) {
        assert_eq!(before + 1, *after);
    }
    assert_ne!(aux, outcome.aux);
}

#[test]
fn short_data_is_updated_in_order() {
    let mut data = vec![0u64; 255];
    let mut aux = vec![7u64];
    execute_all(&mut pool(), &mut data, &mut aux, ReplaceItem);
    assert_eq!(aux, vec![254]);
    assert_eq!(data, vec![0; 255]);
}

#[test]
fn divided_data_is_updated_in_the_order_of_the_ring() {
    // Eight chunks of 32 items. The first channel goes from the first chunk to the last one,
    // and from there down to the second.
    let mut data = vec![0u64; 256];
    let mut aux = vec![7u64];
    execute_all(&mut pool(), &mut data, &mut aux, ReplaceItem);
    assert_eq!(aux, vec![63]);
}

#[test]
fn each_channel_has_its_own_order() {
    // The auxiliary item at `c` has channel `c`, and the chunk after the one with which the
    // channel begins comes last.
    let mut data: Vec<u64> = (0..256).map(|i| i % 8).collect();
    let mut aux = vec![0u64; 8];
    execute_all(&mut pool(), &mut data, &mut aux, ReplaceItem);
    let expected: Vec<u64> = (0..8).map(|c| ((c + 1) % 8) * 32 + 24 + c).collect();
    assert_eq!(aux, expected);
}

#[test]
fn a_chunk_of_many_batches_keeps_the_order_of_its_items() {
    // Eight chunks of 2048 items, in two batches each: the tasks of the first batch of the
    // first thread come first, and those of its second batch last, after a whole round.
    let mut data = vec![0u64; 8 * 2048];
    let mut aux = vec![0u64];
    execute_all(&mut pool(), &mut data, &mut aux, ReplaceItem);
    assert_eq!(aux, vec![2047]);
}

#[test]
fn empty_data_changes_nothing() {
    let mut data: Vec<u64> = Vec::new();
    let mut aux = vec![1u64, 2, 3];
    execute_all(&mut pool(), &mut data, &mut aux, ReplaceItem);
    assert_eq!(aux, vec![1, 2, 3]);
    assert!(data.is_empty());
}

#[test]
fn two_runs_on_the_same_input_agree() {
    let mut pool = pool();
    let mut rng = XorRng::new(5);
    let data = multi_iterate_mut::xor_rng::gen_data(&mut rng, PROB_SIZE);
    let mut results = Vec::new();
    for _ in 0..2 {
        let mut data = data.clone();
        let mut aux = vec![0u64; PROB_SIZE];
        execute_all(&mut pool, &mut data, &mut aux, ReplaceItem);
        results.push(aux);
    }
    assert_eq!(results[0], results[1]);
}

#[test]
fn only_one_source_per_auxiliary_item() {
    let mut data = make_example_data();
    let mut aux = vec![ExampleItem { data: 1 }; PROB_SIZE + 1];
    execute_all(&mut pool(), &mut data, &mut aux, AddOwn);
    for i in 0..PROB_SIZE {
        assert_eq!(aux[i].data, i as u64 + 1);
    }
    assert_eq!(aux[PROB_SIZE].data, 1);
}

#[test]
fn two_auxiliary_vectors_of_different_lengths() {
    let mut data = make_example_data();
    data.truncate(1000);
    let mut aux1 = vec![ExampleItem { data: 5 }; 1001];
    let mut aux2 = vec![ExampleItem { data: 6 }; 3];
    execute_all2(&mut pool(), &mut data, &mut aux1, &mut aux2, CountOwnFirst);
    assert_eq!(aux1[0].data, 6);
    assert_eq!(aux1[999].data, 6);
    assert_eq!(aux1[1000].data, 5);
    assert_eq!(aux2, vec![ExampleItem { data: 6 }; 3]);
}

#[test]
fn divisions() {
    assert!(divide(0).is_none());
    assert!(divide(255).is_none());
    let division = divide(256).unwrap();
    assert_eq!(division.nominal_chunk_size, 32);
    assert_eq!(division.iterations, 9);
    let division = divide(PROB_SIZE).unwrap();
    assert_eq!(division.nominal_chunk_size, 12500);
    assert_eq!(division.iterations, 21);
}

#[test]
fn a_store_runs_its_tasks_in_order_and_is_empty_then() {
    let holder = PtrHolder1::new(&[0u64], MAX_THREADS);
    let mut store: DeferStore<Task1<FuzzOp>> = DeferStore::new();
    let mut part = vec![4u64];
    store.add(Task1 { holder, index: 0, op: FuzzOp::Flip });
    store.process(&mut part);
    assert_eq!(part, vec![5]);
    store.process(&mut part);
    assert_eq!(part, vec![5]);

    let mut store: DeferStore<Task1<Replace>> = DeferStore::new();
    for value in 1..=3 {
        store.add(Task1 { holder, index: 0, op: Replace { value } });
    }
    store.process(&mut part);
    assert_eq!(part, vec![3]);
}

#[test]
fn a_scheduler_keeps_the_channels_apart() {
    let holder = PtrHolder1::new(&[0usize; 16], MAX_THREADS);
    assert_eq!(holder.size(), 2);
    let mut ctx: AuxScheduler<PtrHolder1, Task1<Count>> = AuxScheduler::new(holder);
    ctx.schedule(3, Task1 { holder: ctx.get_ah(), index: 6, op: Count });
    ctx.schedule(3, Task1 { holder: ctx.get_ah(), index: 7, op: Count });
    ctx.schedule(3, Task1 { holder: ctx.get_ah(), index: 7, op: Count });
    let mut part = vec![10usize, 20];
    ctx.process(2, &mut part);
    assert_eq!(part, vec![10, 20]);
    ctx.process(3, &mut part);
    assert_eq!(part, vec![11, 22]);
    ctx.process(3, &mut part);
    assert_eq!(part, vec![11, 22]);
}

#[test]
fn a_processor_waits_for_its_friend() {
    let holder = PtrHolder1::new(&[0usize], MAX_THREADS);
    let mut processor: ChunkProcessor<PtrHolder1, Task1<Count>> =
        ChunkProcessor::new(holder, 7, 70, 3, 9);
    let mut chunk = [1usize, 2, 3];
    let mut part = vec![0usize];
    let mut other: Vec<usize> = Vec::new();
    assert_eq!(processor.channel(), 7);
    processor.visit(&CountingBatch, &mut chunk);
    assert_eq!(chunk, [2, 3, 4]);
    assert!(processor.take(0));
    processor.process(&mut other);
    assert_eq!(processor.sync_counter(), 1);
    assert_eq!(processor.channel(), 0);
    processor.visit(&CountingBatch, &mut chunk);
    assert_eq!(chunk, [2, 3, 4]);
    assert!(!processor.take(0));
    assert!(processor.take(1));
    processor.process(&mut part);
    assert_eq!(part, vec![3]);
    assert!(!processor.finished());
    for step in 2..9 {
        processor.visit(&CountingBatch, &mut chunk);
        assert!(processor.take(step));
        processor.process(&mut other);
    }
    assert!(processor.finished());
    assert_eq!(processor.sync_counter(), 9);
    assert!(other.is_empty());
}

#[test]
fn holders_find_items() {
    let mut part = vec![10u8, 11, 12];
    let holder = PtrHolder1::new(&[0u8; 24], MAX_THREADS);
    *holder.get0(&mut part, 4) += 1;
    assert_eq!(part, vec![10, 12, 12]);
    let holder = PtrHolder2::new(&[0u8; 24], &[0u16; 9], MAX_THREADS);
    assert_eq!(holder.size0(), 3);
    assert_eq!(holder.size1(), 2);
    *holder.get0(&mut part, 5) += 1;
    assert_eq!(part, vec![10, 12, 13]);
    let mut part = vec![1u16, 2];
    *holder.get1(&mut part, 8) = 9;
    assert_eq!(part, vec![9, 2]);
}

#[test]
fn the_ring_of_threads() {
    let mut pool = Pool::with_cores(&[3, 1, 4, 15, 9, 2, 6, 5, 35]);
    assert_eq!(pool.thread_count(), 8);
    assert_eq!(pool.core_of(3), 15);
    assert_eq!(pool.core_of(7), 5);
    assert_eq!(pool.friend_of(0), 1);
    assert_eq!(pool.friend_of(7), 0);
    pool.exit();
    assert_eq!(pool.thread_count(), 8);
}

#[test]
fn a_pool_needs_a_core_for_each_thread() {
    let on = |ids: Option<Vec<usize>>| Pool::new(&Cores::from_ids(ids));
    assert!(on(None).is_none());
    assert!(on(Some(vec![])).is_none());
    assert!(on(Some((0..7).collect())).is_none());
    let pool = on(Some((10..18).collect())).unwrap();
    assert_eq!(pool.core_of(0), 10);
    assert_eq!(pool.core_of(7), 17);
    let pool = on(Some((0..40).collect())).unwrap();
    assert_eq!(pool.core_of(7), 7);
}

#[test]
fn all_pools_use_the_same_list_of_cores() {
    let cores = Cores::list();
    if let Some(ids) = cores.ids() {
        for i in 1..ids.len() {
            assert!(ids[i - 1] < ids[i]);
        }
    }
    if let (Some(first), Some(second)) = (Pool::new(&cores), Pool::new(&cores)) {
        for i in 0..first.thread_count() {
            assert_eq!(first.core_of(i), second.core_of(i));
        }
    }
}

#[test]
fn updates_of_single_items() {
    let mut item = 5u64;
    FuzzOp::Flip.apply(&mut item);
    assert_eq!(item, 4);
    FuzzOp::Mutate { rng: XorRng::new(1), xval: 1, x: 2 }.apply(&mut item);
    assert_eq!(item, 4 ^ 2 ^ 1 ^ 270369);
    let mut count = usize::MAX;
    Count.apply(&mut count);
    assert_eq!(count, 0);
    let holder = PtrHolder1::new(&[0u64; 8], MAX_THREADS);
    let mut part = vec![1u64];
    Task1 { holder, index: 3, op: Replace { value: 8 } }.run(&mut part);
    assert_eq!(part, vec![8]);
}

/// Runs the threads of a divided input in a random interleaving, and returns the auxiliary
/// vector and the number of actions.
fn run_interleaved(data: &mut [u64], aux: &mut Vec<u64>, rng: &mut XorRng) -> usize {
    let pool = pool();
    let division = divide(data.len()).unwrap();
    let holder = PtrHolder1::new(aux, MAX_THREADS);
    let mut parts = split(aux, holder.size());
    let f = ReplaceItem;
    let batch = ItemBatch1 { f: &f };
    let mut chunks: Vec<&mut [u64]> = data.chunks_mut(division.nominal_chunk_size).collect();
    let mut processors: Vec<ChunkProcessor<PtrHolder1, Task1<Replace>>> = (0..MAX_THREADS)
        .map(|w| {
            let start = w * division.nominal_chunk_size;
            ChunkProcessor::new(holder, w, start, chunks[w].len(), division.iterations)
        })
        .collect();
    let mut phase = vec![0; MAX_THREADS];
    let mut actions = 0;
    let mut idle_rounds = 0;
    while processors.iter().any(|processor| !processor.finished()) {
        let w = rng.gen() as usize % MAX_THREADS;
        idle_rounds += 1;
        assert!(idle_rounds < 100_000);
        if processors[w].finished() {
            continue;
        }
        match phase[w] {
            0 => processors[w].visit(&batch, chunks[w]),
            1 => {
                let seen = processors[pool.friend_of(w)].sync_counter();
                if !processors[w].take(seen) {
                    continue;
                }
                for v in 0..MAX_THREADS {
                    assert!(v == w || phase[v] != 2
                        || processors[v].channel() != processors[w].channel());
                }
            }
            _ => {
                let channel = processors[w].channel();
                processors[w].process(&mut parts[channel]);
            }
        }
        phase[w] = (phase[w] + 1) % 3;
        actions += 1;
        idle_rounds = 0;
    }
    join(aux, parts);
    actions
}

#[test]
fn every_interleaving_agrees() {
    let mut rng = XorRng::new(9);
    let input = multi_iterate_mut::xor_rng::gen_data(&mut rng, 20_000);
    // All the updates are of the first few auxiliary items, so that their order shows.
    let input: Vec<u64> = input.iter().map(|x| x % 50).collect();
    let mut data = input.clone();
    let mut expected = vec![0u64; 50];
    execute_all(&mut pool(), &mut data, &mut expected, ReplaceItem);
    for _ in 0..5 {
        let mut data = input.clone();
        let mut aux = vec![0u64; 50];
        let actions = run_interleaved(&mut data, &mut aux, &mut rng);
        assert_eq!(aux, expected);
        assert_eq!(data, input);
        assert_eq!(actions, 3 * MAX_THREADS * divide(input.len()).unwrap().iterations);
    }
}

#[test]
fn the_generator_never_gets_stuck() {
    let mut rng = XorRng::new(0);
    for _ in 0..1000 {
        assert_ne!(rng.gen(), 0);
    }
}

#[test]
fn every_task_of_a_batch_is_run_once() {
    for len in [0, 1, 255, 256, 20_000] {
        let mut data = vec![1usize; len];
        let mut aux = vec![5usize];
        let holder = PtrHolder1::new(&aux, MAX_THREADS);
        let mut parts = split(&mut aux, holder.size());
        pool().execute_all(&mut data, holder, &mut parts, &CountingBatch);
        join(&mut aux, parts);
        assert_eq!(aux, vec![5 + len]);
        assert_eq!(data, vec![2; len]);
    }
}
