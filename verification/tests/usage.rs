use rle_vec::{Iter, RleVec, Run, Runs};

/// The cursor over elements as a std iterator.
struct Values<'a, T>(Iter<'a, T>);

impl<'a, T> Iterator for Values<'a, T> {
    type Item = &'a T;

    fn next(&mut self) -> Option<&'a T> {
        self.0.next()
    }

    fn nth(&mut self, n: usize) -> Option<&'a T> {
        self.0.nth(n)
    }
}

/// The cursor over runs as a std iterator.
struct RunItems<'a, T>(Runs<'a, T>);

impl<'a, T> Iterator for RunItems<'a, T> {
    type Item = Run<&'a T>;

    fn next(&mut self) -> Option<Run<&'a T>> {
        self.0.next()
    }
}

fn values<T>(rle: &RleVec<T>) -> Values<'_, T> {
    Values(rle.iter())
}

fn run_items<T>(rle: &RleVec<T>) -> RunItems<'_, T> {
    RunItems(rle.runs())
}

fn by_index<T: Copy>(rle: &RleVec<T>, n: usize) -> Vec<T> {
    (0..n).map(|i| *rle.index(i)).collect()
}

#[test]
fn basic_usage() {
    let mut rle = RleVec::<i64>::new();
    rle.push(1);
    rle.push(1);
    rle.push(1);
    rle.push(1);
    rle.push(2);
    rle.push(2);
    rle.push(2);
    rle.push(3);
    rle.push(3);
    rle.push(4);
    assert_eq!(rle.len(), 10);
    assert_eq!(rle.runs_len(), 4);

    rle.push_n(3, 4);
    assert_eq!(rle.len(), 13);
    assert_eq!(rle.runs_len(), 4);
    rle.push_n(3, 5);
    assert_eq!(rle.len(), 16);
    assert_eq!(rle.runs_len(), 5);
}

#[test]
fn setting_values() {
    let mut rle = RleVec::<i64>::new();
    rle.push(1);
    rle.set(0, 10);
    assert_eq!(rle.len(), 1);
    assert_eq!(rle.runs_len(), 1);
    assert_eq!(*rle.index(0), 10);

    let mut rle = RleVec::from_slice(&[1, 1, 1, 1, 2, 2, 2, 3, 3, 4]);

    assert_eq!(by_index(&rle, 10), vec![1, 1, 1, 1, 2, 2, 2, 3, 3, 4]);

    rle.set(2, 1);
    assert_eq!(by_index(&rle, 10), vec![1, 1, 1, 1, 2, 2, 2, 3, 3, 4]);
    rle.set(0, 1);
    assert_eq!(by_index(&rle, 10), vec![1, 1, 1, 1, 2, 2, 2, 3, 3, 4]);
    rle.set(0, 2);
    assert_eq!(by_index(&rle, 10), vec![2, 1, 1, 1, 2, 2, 2, 3, 3, 4]);
    rle.set(6, 5);
    rle.set(9, 2);
    assert_eq!(by_index(&rle, 10), vec![2, 1, 1, 1, 2, 2, 5, 3, 3, 2]);
    rle.set(2, 4);
    assert_eq!(by_index(&rle, 10), vec![2, 1, 4, 1, 2, 2, 5, 3, 3, 2]);
    rle.set(2, 1);
    assert_eq!(by_index(&rle, 10), vec![2, 1, 1, 1, 2, 2, 5, 3, 3, 2]);
    assert_eq!(rle.runs_len(), 6);
}

#[test]
fn removing_values() {
    let mut rle = RleVec::from_slice(&[1, 1, 1, 1, 1, 2, 1, 1, 1, 4, 4, 3, 3]);
    assert_eq!(rle.len(), 13);
    assert_eq!(rle.runs_len(), 5);

    let value = rle.remove(5);
    assert_eq!(value, 2);
    assert_eq!(rle.len(), 12);
    assert_eq!(rle.runs_len(), 3);
    assert_eq!(rle.to_vec(), vec![1, 1, 1, 1, 1, 1, 1, 1, 4, 4, 3, 3]);

    let value = rle.remove(7);
    assert_eq!(value, 1);
    assert_eq!(rle.len(), 11);
    assert_eq!(rle.runs_len(), 3);
    assert_eq!(rle.to_vec(), vec![1, 1, 1, 1, 1, 1, 1, 4, 4, 3, 3]);

    let value = rle.remove(10);
    assert_eq!(value, 3);
    assert_eq!(rle.len(), 10);
    assert_eq!(rle.runs_len(), 3);
    assert_eq!(rle.to_vec(), vec![1, 1, 1, 1, 1, 1, 1, 4, 4, 3]);
}

#[test]
fn inserting_values() {
    let mut v = vec![0, 0, 0, 1, 1, 1, 1, 1, 1, 1, 3, 3, 1, 0, 99, 99, 9];
    let mut rle = RleVec::from_slice(&v);
    rle.insert(0, 1);
    v.insert(0, 1);
    assert_eq!(by_index(&rle, rle.len()), v);
    assert_eq!(rle.len(), 18);
    rle.insert(18, 9);
    v.insert(18, 9);
    assert_eq!(by_index(&rle, rle.len()), v);
    rle.insert(19, 10);
    v.insert(19, 10);
    assert_eq!(by_index(&rle, rle.len()), v);

    rle.insert(2, 0);
    v.insert(2, 0);
    assert_eq!(by_index(&rle, rle.len()), v);
    assert_eq!(rle.runs_len(), 9);

    rle.insert(8, 0);
    v.insert(8, 0);
    assert_eq!(by_index(&rle, rle.len()), v);
    assert_eq!(rle.runs_len(), 11);

    rle.insert(13, 4);
    v.insert(13, 4);
    assert_eq!(by_index(&rle, rle.len()), v);
    assert_eq!(rle.runs_len(), 12);

    let v = vec![0, 0, 0, 1, 1, 1, 1, 2, 2, 3];
    let mut rle: RleVec<_> = RleVec::from_vec(v);
    rle.set(1, 2);
    assert_eq!(values(&rle).cloned().collect::<Vec<_>>(), vec![0, 2, 0, 1, 1, 1, 1, 2, 2, 3]);
    rle.insert(4, 4);
    assert_eq!(values(&rle).cloned().collect::<Vec<_>>(), vec![0, 2, 0, 1, 4, 1, 1, 1, 2, 2, 3]);
    rle.insert(7, 1);
    assert_eq!(
        values(&rle).cloned().collect::<Vec<_>>(),
        vec![0, 2, 0, 1, 4, 1, 1, 1, 1, 2, 2, 3]
    );
    rle.insert(8, 8);
    assert_eq!(
        values(&rle).cloned().collect::<Vec<_>>(),
        vec![0, 2, 0, 1, 4, 1, 1, 1, 8, 1, 2, 2, 3]
    );
}

#[test]
fn from_vec() {
    let v = vec![0, 0, 0, 1, 1, 1, 1, 1, 1, 1, 3, 3, 1, 0, 99, 99, 9];
    let rle = RleVec::from_slice(&v);
    assert_eq!(by_index(&rle, v.len()), v);
    assert_eq!(rle.len(), 17);
}

#[test]
fn iterators() {
    let v = vec![0, 0, 0, 1, 1, 1, 1, 1, 1, 1, 3, 3, 123, 0, 90, 90, 99];
    let rle = RleVec::from_vec(v.iter().cloned().collect::<Vec<_>>());
    assert_eq!(by_index(&rle, v.len()), v);
    assert_eq!(rle.len(), 17);

    assert_eq!(values(&rle).cloned().collect::<Vec<_>>(), v);
    assert_eq!(RleVec::<i64>::new().iter().next(), None);

    let v2 = (0..100).collect::<Vec<usize>>();
    let rle2 = RleVec::from_vec(v2.iter().cloned().collect::<Vec<_>>());
    assert_eq!(values(&rle2).cloned().collect::<Vec<_>>(), v2);
    assert_eq!(values(&rle2).skip(0).cloned().collect::<Vec<_>>(), v2);

    assert_eq!(rle2.iter().nth(0), Some(&0));
    assert_eq!(rle2.iter().nth(5), Some(&5));
    assert_eq!(rle2.iter().nth(99), Some(&99));
    assert_eq!(rle2.iter().nth(100), None);
    let mut it = rle2.iter();
    it.nth(0);
    assert_eq!(it.nth(0), Some(&1));

    assert_eq!(rle.iter().nth(3), Some(&1));
    assert_eq!(rle.iter().nth(14), Some(&90));
    assert_eq!(rle.iter().nth(15), Some(&90));

    assert_eq!(values(&rle).skip(2).next(), Some(&0));
    assert_eq!(values(&rle).skip(3).next(), Some(&1));

    assert_eq!(rle.iter().max(), Some(&123));
    assert_eq!(rle.iter().min(), Some(&0));
    assert_eq!(values(&rle).skip(13).max(), Some(&99));
    assert_eq!(values(&rle).skip(13).min(), Some(&0));
    assert_eq!(values(&rle).skip(13).take(2).max(), Some(&90));
    assert_eq!(values(&rle).skip(13).take(2).min(), Some(&0));

    //runiters
    assert_eq!(
        run_items(&rle).map(|r| r.value).collect::<Vec<_>>(),
        vec![&0, &1, &3, &123, &0, &90, &99]
    );
    assert_eq!(run_items(&rle).map(|r| r.len).collect::<Vec<_>>(), vec![3, 7, 2, 1, 1, 2, 1]);

    let mut copy = RleVec::new();
    for r in run_items(&rle) {
        copy.push_n(r.len, r.value.clone());
    }
    assert_eq!(values(&copy).cloned().collect::<Vec<_>>(), v);
    let copy2: RleVec<i32> = RleVec::from_runs(
        run_items(&rle).map(|r| Run { value: r.value.clone(), len: r.len }).collect::<Vec<_>>(),
    );
    assert_eq!(values(&copy2).cloned().collect::<Vec<_>>(), v);
}

#[test]
fn starts_ends() {
    let v = vec![0, 0, 0, 1, 1, 1, 1, 1, 1, 1, 3, 3, 1, 0, 99, 99, 9];
    let rle = RleVec::from_vec(v.iter().cloned().collect::<Vec<_>>());
    assert_eq!(rle.starts(), vec![0, 3, 10, 12, 13, 14, 16]);
    assert_eq!(rle.ends(), vec![2, 9, 11, 12, 13, 15, 16]);

    let rle = RleVec::<i64>::new();
    assert!(rle.starts().is_empty());
    assert!(rle.ends().is_empty());
}
