use std::cmp::Ordering;
use std::fmt;
use std::sync::Arc;

use rand::Rng;

use partial_sort::PartialSort;

trait TModel: fmt::Debug + Send + Sync {
    fn size(&self) -> usize;
}

#[derive(Debug)]
struct ModelFoo {
    size: usize,
}

impl TModel for ModelFoo {
    fn size(&self) -> usize {
        self.size
    }
}

#[derive(Debug)]
struct ModelBar {
    size: usize,
}

impl TModel for ModelBar {
    fn size(&self) -> usize {
        self.size
    }
}

type ModelRef = Arc<dyn TModel>;

fn cmp_model(a: &dyn TModel, b: &dyn TModel) -> Ordering {
    a.size().cmp(&b.size())
}

#[test]
fn empty_test() {
    let mut before: Vec<u32> = vec![4, 4, 3, 3, 1, 1, 2, 2];
    before.partial_sort(0, |a, b| a.cmp(b));
}

#[test]
fn single_test() {
    let mut before: Vec<u32> = vec![4, 4, 3, 3, 1, 1, 2, 2];
    let last = 6;
    let mut d = before.clone();
    d.sort();

    before.partial_sort(last, |a, b| a.cmp(b));
    assert_eq!(&d[0..last], &before.as_slice()[0..last]);
}

#[test]
fn sorted_strings_test() {
    let mut before: Vec<&str> = vec![
        "a", "cat", "mat", "on", "sat", "the", "xxx", "xxxx", "fdadfdsf",
    ];
    let last = 6;
    let mut d = before.clone();
    d.sort();

    before.partial_sort(last, |a, b| a.cmp(b));
    assert_eq!(&d[0..last], &before.as_slice()[0..last]);
}

#[test]
fn sorted_ref_test() {
    let mut before: Vec<(i32, ModelRef)> = vec![
        (1i32, Arc::new(ModelBar { size: 100 })),
        (1i32, Arc::new(ModelFoo { size: 99 })),
        (1i32, Arc::new(ModelFoo { size: 101 })),
        (1i32, Arc::new(ModelBar { size: 104 })),
        (1i32, Arc::new(ModelBar { size: 10 })),
        (1i32, Arc::new(ModelBar { size: 24 })),
        (1i32, Arc::new(ModelBar { size: 34 })),
        (1i32, Arc::new(ModelBar { size: 114 })),
    ];

    let last = 6;
    let mut d = before.clone();
    d.sort_by(|a, b| cmp_model(a.1.as_ref(), b.1.as_ref()));

    before.partial_sort(last, |a, b| cmp_model(a.1.as_ref(), b.1.as_ref()));

    d[0..last].iter().zip(&before[0..last]).for_each(|(a, b)| {
        assert_eq!(a.0, b.0);
        assert_eq!(a.1.size(), b.1.size());
    });
}

#[test]
fn sorted_random_u64_test() {
    let mut rng = rand::thread_rng();
    let vec_size = 1025;
    let partial_size = (rng.gen::<u64>() % vec_size) as usize;
    let mut data = (0u64..vec_size)
        .map(|_| rng.gen::<u64>())
        .collect::<Vec<u64>>();
    let mut d = data.clone();
    d.sort();

    data.partial_sort(partial_size, |a, b| a.cmp(b));
    assert_eq!(&d[0..partial_size], &data.as_slice()[0..partial_size]);
}
