use generational_arena::Arena;
use rand::Rng;
use simd_tree::insert;
use simd_tree::search;
use simd_tree::Point;
use simd_tree::K;
use std::time::Instant;

/// Order-preserving key of an `f64` coordinate (see `tree.rs`).
fn coord_key(c: f64) -> u64 {
    let b = c.to_bits();
    if b & (1u64 << 63) == 0 {
        b | (1u64 << 63)
    } else {
        !b
    }
}

fn to_point(p: [f64; K]) -> Point {
    Point { x: coord_key(p[0]), y: coord_key(p[1]) }
}

#[test]
fn bench_insert() {
    let num_points = 1_000_000;
    let mut rng = rand::thread_rng();
    let mut arena = Arena::new();

    let points: Vec<[f64; K]> = (0..num_points)
        .map(|_| [rng.gen_range(0.0..100.0), rng.gen_range(0.0..100.0)])
        .collect();

    let mut root = None;

    let start_time = Instant::now();
    for point in points.iter() {
        root = Some(insert(&mut arena, root, to_point(*point)));
    }
    let end_time = Instant::now();

    println!(
        "Insertion of {} points took: {:?}",
        num_points,
        end_time - start_time
    );
}

#[test]
fn bench_search() {
    let num_points = 1_000_000;
    let mut rng = rand::thread_rng();
    let mut arena = Arena::new();

    let points: Vec<[f64; K]> =
        (0..num_points).fold(Vec::with_capacity(num_points), |mut vec, _| {
            vec.push([rng.gen_range(0.0..100.0), rng.gen_range(0.0..100.0)]);
            vec
        });

    let mut root = None;

    for point in points.iter() {
        root = Some(insert(&mut arena, root, to_point(*point)));
    }

    let mut search_points = Vec::with_capacity(1000);

    for _ in 0..1_000 {
        search_points.push(points[rng.gen_range(0..num_points - 1)]);
    }

    let mut res = Vec::with_capacity(1000);

    for search_point in search_points.iter() {
        let start_time = Instant::now();
        let found = search(&arena, root, to_point(*search_point));
        let end_time = Instant::now();

        if found {
            res.push(format!(
                "Found point {:?} in {:?}",
                search_point,
                end_time - start_time
            ));
        } else {
            res.push(format!(
                "Did not find point {:?} in {:?}",
                search_point,
                end_time - start_time
            ));
        }
    }

    println!("{}", res.join("\n"));
}
