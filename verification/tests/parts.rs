use std::cell::Cell;

use multi_iterate_mut::checks::{check_data, check_eq, Mismatch};
use multi_iterate_mut::chunk_list::chunk_list;
use multi_iterate_mut::chunks::chunk_size;
use multi_iterate_mut::double_aux::double_aux;
use multi_iterate_mut::each::{apply_each, apply_range};
use multi_iterate_mut::example::{make_example_data, DoublePtrHolder, ExampleItem};
use multi_iterate_mut::handed::HandedJob;
use multi_iterate_mut::job_slot::{JobSlot, Poll, FIRST_RUNNER};
use multi_iterate_mut::{
    make_data, mypool, mypool2, run_mypool, run_mypool2, run_rayon_scoped, run_scoped_threadpool,
    PROB_SIZE, THREADS,
};
use multi_iterate_mut::mypool3::Pool;
use multi_iterate_mut::parts::{join, split};
use multi_iterate_mut::passes;
use multi_iterate_mut::xor_rng::{gen_data, gen_size, Mutator, XorRng};

#[test]
fn numbers_of_the_generator() {
    let mut rng = XorRng::new(1);
    assert_eq!(gen_data(&mut rng, 4), vec![270369, 67634689, 2647435461, 307599695]);
    assert_eq!(XorRng::new(0).state, 0xffff_ffff);
    let mut rng = XorRng::new(3);
    rng.mix_in(2);
    assert_eq!(rng.gen(), 270369);
    assert_eq!(rng.state, 270369);
}

#[test]
fn sizes_are_small_middling_or_large() {
    let mut rng = XorRng::new(1);
    assert_eq!(gen_size(&mut rng), 369);
    assert_eq!(gen_size(&mut rng), 634689 % 20);
    assert_eq!(gen_size(&mut rng), 435461 % 1000);
    let mut small = 0;
    let mut large = 0;
    for _ in 0..1000 {
        let size = gen_size(&mut rng);
        assert!(size < 100_000);
        if size < 20 {
            small += 1;
        }
        if size >= 1000 {
            large += 1;
        }
    }
    assert!(small > 300 && large > 100);
}

#[test]
fn mutators() {
    let other = 1000;
    let mut mutator = Mutator::new(XorRng::new(1), &other, 7);
    assert_eq!(mutator.aux_item(0), None);
    assert_eq!(mutator.aux_item(1000), Some(369));
    let mut item = 12;
    mutator.mutate(&mut item);
    assert_eq!(item, 12 ^ 7 ^ 1000 ^ 67634689);
    assert_eq!(mutator.rng().state, 67634689);
}

#[test]
fn comparisons() {
    assert_eq!(check_eq(&vec![1, 2], &vec![1, 2]), Ok(()));
    assert_eq!(
        check_eq(&vec![1, 2], &vec![1]),
        Err(Mismatch::Length { len: 2, expected: 1 })
    );
    assert_eq!(
        check_eq(&vec![1, 2, 3], &vec![1, 5, 6]),
        Err(Mismatch::Item { index: 1, value: 2, wanted: 5 })
    );
    assert_eq!(check_data(&vec![1, 2, 3]), Ok(()));
    assert_eq!(
        check_data(&make_data()),
        Err(Mismatch::Item { index: 0, value: 0, wanted: 1 })
    );
    assert_eq!(
        check_data(&vec![1, 3, 3]),
        Err(Mismatch::Item { index: 1, value: 3, wanted: 2 })
    );
}

#[test]
fn chunk_sizes_and_chunks() {
    assert_eq!(chunk_size(9, 8), 2);
    assert_eq!(chunk_size(8, 8), 1);
    assert_eq!(chunk_size(0, 8), 0);
    assert_eq!(chunk_size(usize::MAX, 1), usize::MAX);
    assert_eq!(chunk_size(usize::MAX, 2), usize::MAX / 2 + 1);
    let list = chunk_list(9, 2);
    assert_eq!(list.as_slice(), &[(0, 2), (2, 4), (4, 6), (6, 8), (8, 9)]);
    assert_eq!(chunk_list(0, 3).len(), 0);
    assert_eq!(chunk_list(8, 1).len(), THREADS);
}

#[test]
fn slots() {
    let mut slot = JobSlot::new();
    assert_eq!(slot.poll(), Poll::Idle);
    assert!(slot.is_idle());
    slot.post(5, FIRST_RUNNER);
    assert_eq!(slot.poll(), Poll::Run(5, FIRST_RUNNER));
    assert_eq!(slot.poll(), Poll::Run(5, FIRST_RUNNER));
    assert!(!slot.is_idle());
    slot.finish();
    assert!(slot.is_idle());
    slot.post(6, 77);
    slot.request_exit();
    assert_eq!(slot.poll(), Poll::Exit);
    assert!(!slot.is_idle());
}

#[test]
fn cutting_and_joining() {
    let mut aux: Vec<u32> = (0..19).collect();
    let parts = split(&mut aux, 3);
    assert!(aux.is_empty());
    assert_eq!(parts.len(), 8);
    assert_eq!(parts[1], vec![3, 4, 5]);
    assert_eq!(parts[6], vec![18]);
    assert!(parts[7].is_empty());
    join(&mut aux, parts);
    assert_eq!(aux, (0..19).collect::<Vec<u32>>());
}

#[test]
fn applying_to_each_and_to_some() {
    let mut data = [1, 2, 3, 4];
    apply_each(&mut data, &|x: &mut i32| *x *= 10);
    assert_eq!(data, [10, 20, 30, 40]);
    apply_range(&mut data, 1, 3, &|x: &mut i32| *x += 1);
    assert_eq!(data, [10, 21, 31, 40]);
}

fn bounds(jobs: &[HandedJob]) -> Vec<(usize, usize)> {
    jobs.iter().map(|job| job.bounds()).collect()
}

#[test]
fn rayon_visits_every_item_once() {
    for threads in [1, 2, 3, 8, 200_000] {
        let mut data = make_data();
        let jobs = run_rayon_scoped(&mut data, |item: &mut u64| *item += 1, threads);
        assert_eq!(check_data(&data), Ok(()));
        assert_eq!(jobs.len(), threads.min(PROB_SIZE));
    }
    let mut one = [41u8];
    let jobs = run_rayon_scoped(&mut one, |item: &mut u8| *item += 1, 8);
    assert_eq!(one, [42]);
    assert_eq!(bounds(&jobs), vec![(0, 1)]);
    let mut nine = [0u8; 9];
    let jobs = run_rayon_scoped(&mut nine, |item: &mut u8| *item += 1, 4);
    assert_eq!(nine, [1; 9]);
    assert_eq!(bounds(&jobs), vec![(0, 3), (3, 6), (6, 9)]);
}

#[test]
fn the_scoped_pool_visits_every_item_once() {
    let mut pool = scoped_threadpool::Pool::new(THREADS as u32);
    let mut data = make_data();
    let jobs = run_scoped_threadpool(&mut data, &mut pool, |item: &mut u64| *item += 1);
    assert_eq!(check_data(&data), Ok(()));
    assert_eq!(pool.thread_count(), THREADS as u32);
    assert_eq!(jobs.len(), THREADS);
    assert_eq!(jobs[7].bounds(), (87500, 100000));
    let mut three = [1, 2, 3];
    let jobs = run_scoped_threadpool(&mut three, &mut pool, |item: &mut i32| *item = -*item);
    assert_eq!(three, [-1, -2, -3]);
    assert_eq!(bounds(&jobs), vec![(0, 1), (1, 2), (2, 3)]);
    let mut pool = scoped_threadpool::Pool::new(2);
    let jobs = run_scoped_threadpool(&mut three, &mut pool, |item: &mut i32| *item -= 1);
    assert_eq!(three, [-2, -3, -4]);
    assert_eq!(bounds(&jobs), vec![(0, 2), (2, 3)]);
}

#[test]
fn the_first_pool_visits_every_item_once() {
    let mut pool = mypool::Pool::new(THREADS);
    assert_eq!(pool.thread_count(), THREADS);
    let mut data = make_data();
    run_mypool(&mut data, &mut pool, |item: &mut u64| *item += 1);
    assert_eq!(check_data(&data), Ok(()));
    let mut nine: Vec<u64> = (0..9).collect();
    run_mypool(&mut nine, &mut pool, |item: &mut u64| *item += 1);
    assert_eq!(check_data(&nine), Ok(()));
    // The nine items are five chunks. The other threads keep what they ran before.
    let ran: Vec<(usize, usize)> = (0..THREADS).map(|i| pool.last_range(i)).collect();
    assert_eq!(ran[..5], [(0, 2), (2, 4), (4, 6), (6, 8), (8, 9)]);
    assert_eq!(ran[5..], [(62500, 75000), (75000, 87500), (87500, 100000)]);
    assert_eq!(mypool::Pool::new(1).last_range(0), (0, 0));
}

#[test]
fn the_second_pool_visits_every_item_once() {
    let mut pool = mypool2::Pool::with_cores(THREADS, &[0, 1]);
    assert_eq!(pool.thread_count(), THREADS);
    let mut data = make_data();
    run_mypool2(&mut data, &mut pool, |item: &mut u64| *item += 1);
    assert_eq!(check_data(&data), Ok(()));
    assert!(pool.all_idle());
    let mut nine: Vec<u64> = (0..9).collect();
    run_mypool2(&mut nine, &mut pool, |item: &mut u64| *item += 1);
    assert_eq!(check_data(&nine), Ok(()));
    let threads = pool.exit();
    assert_eq!(threads[4].ran, (8, 9));
    assert_eq!(threads[5].ran, (62500, 75000));
    // Five items for twenty threads: most of the threads get nothing.
    let mut pool = mypool2::Pool::with_cores(20, &[0]);
    let mut five: Vec<u64> = (0..5).collect();
    run_mypool2(&mut five, &mut pool, |item: &mut u64| *item += 1);
    assert_eq!(check_data(&five), Ok(()));
}

#[test]
fn jobs_without_a_thread_are_not_run() {
    let mut pool = mypool2::Pool::with_cores(2, &[0]);
    let mut data = vec![0; 6];
    pool.execute_ranges(&mut data, &[(0, 2), (2, 4), (4, 6)], &|x: &mut i32| *x += 1);
    assert_eq!(data, vec![1, 1, 1, 1, 0, 0]);
    assert!(pool.all_idle());
    let threads = pool.exit();
    assert_eq!(threads[0].ran, (0, 2));
    assert_eq!(threads[1].ran, (2, 4));
    assert_eq!(threads[1].cur_job.cur_job1, 1);
}

#[test]
fn more_jobs_than_a_list_has_room_for() {
    let mut pool = mypool2::Pool::with_cores(20, &[0]);
    let args: Vec<(usize, usize)> = (0..12).map(|i| (i * 2, i * 2 + 1)).collect();
    let mut data = vec![0; 24];
    pool.execute_ranges(&mut data, &args, &|x: &mut i32| *x += 1);
    for (i, item) in data.iter().enumerate() {
        assert_eq!(*item, if i % 2 == 0 { 1 } else { 0 });
    }
    let threads = pool.exit();
    for (i, range) in args.iter().enumerate() {
        assert_eq!(threads[i].cur_job.cur_job1, i);
        assert_eq!(threads[i].ran, *range);
    }
    assert_eq!(threads[12].ran, (0, 0));
}

#[test]
fn ranges_in_any_order() {
    let mut pool = mypool2::Pool::with_cores(4, &[0]);
    let mut data = vec![0; 8];
    let args = [(5, 7), (3, 3), (0, 2), (2, 5)];
    pool.execute_ranges(&mut data, &args, &|x: &mut i32| *x += 1);
    assert_eq!(data, vec![1, 1, 1, 1, 1, 1, 1, 0]);
    assert_eq!(pool.exit()[2].ran, (0, 2));
}

#[test]
fn closures_as_jobs() {
    let mut pool = mypool2::Pool::with_cores(10, &[0]);
    let calls: Vec<Cell<u32>> = (0..12).map(|_| Cell::new(0)).collect();
    let args: Vec<_> = (0..12)
        .map(|i| {
            let cell = &calls[i];
            move || cell.set(cell.get() + i as u32 + 1)
        })
        .collect();
    pool.execute_all(&args[..3]);
    assert!(pool.all_idle());
    let counts: Vec<u32> = calls.iter().map(|cell| cell.get()).collect();
    assert_eq!(counts, vec![1, 2, 3, 0, 0, 0, 0, 0, 0, 0, 0, 0]);
    pool.execute_all(&args);
    let counts: Vec<u32> = calls.iter().map(|cell| cell.get()).collect();
    assert_eq!(counts, vec![2, 4, 6, 4, 5, 6, 7, 8, 9, 10, 0, 0]);
    for (i, thread) in pool.exit().iter().enumerate() {
        assert_eq!(thread.cur_job.cur_job1, i);
        assert_eq!(thread.ran, (0, 0));
    }
}

#[test]
fn the_second_pool_shares_the_cores_and_ends() {
    let mut pool = mypool2::Pool::with_cores(5, &[10, 20]);
    pool.post_all(3);
    assert!(!pool.all_idle());
    let ending = pool.exit();
    assert_eq!(pool.thread_count(), 0);
    let cores: Vec<usize> = ending.iter().map(|thread| thread.core_id).collect();
    assert_eq!(cores, vec![10, 20, 10, 20, 10]);
    for thread in ending {
        assert_eq!(thread.cur_job.poll(), Poll::Exit);
    }
    assert!(mypool2::Pool::new(0).map_or(true, |pool| pool.thread_count() == 0));
    assert!(mypool2::Pool::new(3).map_or(true, |pool| pool.thread_count() == 3));
}

#[test]
fn the_second_pool_needs_a_core() {
    assert!(mypool2::Pool::on_found_cores(3, None).is_none());
    assert!(mypool2::Pool::on_found_cores(0, None).is_none());
    assert!(mypool2::Pool::on_found_cores(3, Some(vec![])).is_none());
    let pool = mypool2::Pool::on_found_cores(0, Some(vec![])).unwrap();
    assert_eq!(pool.thread_count(), 0);
    let pool = mypool2::Pool::on_found_cores(3, Some(vec![5, 9])).unwrap();
    assert_eq!(pool.thread_count(), 3);
    assert_eq!([pool.core_of(0), pool.core_of(1), pool.core_of(2)], [5, 9, 5]);
}

#[test]
fn example_items() {
    let data = make_example_data();
    assert_eq!(data.len(), PROB_SIZE);
    assert_eq!(data[77], ExampleItem { data: 77 });
    assert_eq!(ExampleItem::default(), ExampleItem { data: 0 });
    let holder = DoublePtrHolder::new(&data, &vec![ExampleItem::default(); 9]);
    assert_eq!(holder.size1(), 12500);
    assert_eq!(holder.size2(), 2);
}

fn pool() -> Pool {
    Pool::with_cores(&[0, 1, 2, 3, 4, 5, 6, 7])
}

#[test]
fn passes_over_numbers() {
    let mut data = make_data();
    passes::non_threaded(&mut data);
    assert_eq!(check_data(&data), Ok(()));
    let mut data = make_data();
    passes::simple(&mut pool(), &mut data);
    assert_eq!(check_data(&data), Ok(()));
    let mut one = vec![1u64];
    passes::simple(&mut pool(), &mut one);
    assert_eq!(one, vec![2]);
    let mut aux = vec![u64::MAX, 4, 5];
    assert_eq!(passes::aux_singlethreaded(&vec![10, 20], &mut aux), 30);
    assert_eq!(aux, vec![0, 5, 5]);
}

#[test]
fn passes_over_items() {
    let mut data = make_example_data();
    let mut aux = make_example_data();
    passes::simple_new(&mut pool(), &mut data, &mut aux);
    assert_eq!(data[9].data, 10);
    assert_eq!(aux[9].data, 9);
    passes::aux(&mut pool(), &mut data, &mut aux);
    assert_eq!(aux[9].data, 19);
    assert_eq!(data[9].data, 10);
    passes::aux_new(&mut pool(), &mut data, &mut aux);
    assert_eq!(aux[9].data, 20);
    let mut aux2 = make_example_data();
    passes::double_aux_new(&mut pool(), &mut data, &mut aux, &mut aux2);
    assert_eq!(aux[PROB_SIZE - 1].data, 2 * (PROB_SIZE as u64 - 1) + 3);
    assert_eq!(aux2, make_example_data());
    double_aux(&mut pool(), &mut data, &mut aux, &mut aux2);
    assert_eq!(aux[0].data, 4);
    assert_eq!(aux[PROB_SIZE - 1].data, 2 * (PROB_SIZE as u64 - 1) + 4);
    assert_eq!(aux2, make_example_data());
}
