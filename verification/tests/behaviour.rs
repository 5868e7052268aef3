use rle_vec::{RleVec, Run};

fn run_list<T: Clone>(rle: &RleVec<T>) -> Vec<(T, usize)> {
    let mut cursor = rle.runs();
    let mut out = Vec::new();
    while let Some(run) = cursor.next() {
        out.push((run.value.clone(), run.len));
    }
    out
}

fn is_minimal<T: Clone + PartialEq>(rle: &RleVec<T>) -> bool {
    let runs = run_list(rle);
    runs.windows(2).all(|pair| pair[0].0 != pair[1].0)
}

fn layout<T: Clone + Eq>(rle: &RleVec<T>) -> (Vec<T>, Vec<usize>, Vec<usize>) {
    (rle.to_vec(), rle.starts(), rle.ends())
}

#[test]
fn empty_vector() {
    let rle = RleVec::<u8>::new();
    assert!(rle.is_empty());
    assert_eq!(rle.len(), 0);
    assert_eq!(rle.runs_len(), 0);
    assert_eq!(rle.to_vec(), Vec::<u8>::new());
    assert_eq!(rle.iter().next(), None);
    assert_eq!(rle.iter().nth(0), None);
    assert_eq!(rle.iter().nth(7), None);
    assert_eq!(rle.iter().max(), None);
    assert_eq!(rle.iter().min(), None);
    assert!(rle.runs().next().is_none());
}

#[test]
fn with_capacity_is_empty() {
    let mut rle = RleVec::with_capacity(10);
    assert_eq!(rle.len(), 0);
    assert_eq!(rle.runs_len(), 0);
    for i in 0..10 {
        rle.push(i);
    }
    assert_eq!(rle.len(), 10);
    assert_eq!(rle.runs_len(), 10);
    rle.push(11);
    assert_eq!(rle.len(), 11);
}

#[test]
fn clear_removes_everything() {
    let mut rle = RleVec::from_slice(&[1, 1, 1, 1, 2, 2, 3]);
    assert!(!rle.is_empty());
    rle.clear();
    assert!(rle.is_empty());
    assert_eq!(rle.len(), 0);
    assert_eq!(rle.runs_len(), 0);
    rle.push(4);
    assert_eq!(layout(&rle), (vec![4], vec![0], vec![0]));
}

#[test]
fn push_n_zero_changes_nothing() {
    let mut rle = RleVec::<i32>::new();
    rle.push_n(0, 7);
    assert!(rle.is_empty());
    assert_eq!(rle.runs_len(), 0);
    rle.push_n(2, 7);
    rle.push_n(0, 8);
    rle.push_n(0, 7);
    assert_eq!(layout(&rle), (vec![7, 7], vec![0], vec![1]));
}

#[test]
fn push_n_extends_or_appends() {
    let mut rle = RleVec::new();
    rle.push_n(5, 'a');
    assert_eq!(rle.len(), 5);
    assert_eq!(rle.ends(), vec![4]);
    rle.push_n(3, 'a');
    assert_eq!(rle.len(), 8);
    assert_eq!(rle.ends(), vec![7]);
    rle.push_n(2, 'b');
    assert_eq!(rle.len(), 10);
    assert_eq!(rle.starts(), vec![0, 8]);
    assert_eq!(rle.ends(), vec![7, 9]);
    assert_eq!(*rle.index(7), 'a');
    assert_eq!(*rle.index(8), 'b');
}

#[test]
fn length_follows_a_plain_vector() {
    let mut plain: Vec<u8> = Vec::new();
    let mut rle: RleVec<u8> = RleVec::new();
    for step in 0..200usize {
        let value = ((step * 7) % 3) as u8;
        match step % 5 {
            0 | 1 => {
                plain.push(value);
                rle.push(value);
            }
            2 => {
                let at = (step * 11) % (plain.len() + 1);
                plain.insert(at, value);
                rle.insert(at, value);
            }
            3 => {
                let at = (step * 13) % plain.len();
                plain[at] = value;
                rle.set(at, value);
            }
            _ => {
                let at = (step * 17) % plain.len();
                assert_eq!(rle.remove(at), plain.remove(at));
            }
        }
        assert_eq!(rle.len(), plain.len());
        assert_eq!(rle.to_vec(), plain);
    }
}

#[test]
fn runs_stay_minimal() {
    let mut rle: RleVec<u8> = RleVec::new();
    for step in 0..300usize {
        let value = ((step * 5) % 4) as u8;
        let len = rle.len();
        match step % 4 {
            0 => rle.push(value),
            1 => rle.insert((step * 3) % (len + 1), value),
            2 => rle.set((step * 7) % len, value),
            _ => {
                if rle.runs_len() > 4 {
                    rle.remove((step * 11) % len);
                } else {
                    rle.push_n(2, value);
                }
            }
        }
        assert!(is_minimal(&rle), "after step {}", step);
    }
}

#[test]
fn round_trip_through_the_vector() {
    let cases: Vec<Vec<i32>> = vec![
        vec![],
        vec![5],
        vec![5, 5, 5],
        vec![1, 2, 3, 4],
        vec![0, 0, 0, 1, 1, 99, 9, 9, 0, 0],
    ];
    for values in cases {
        assert_eq!(RleVec::from_slice(&values).to_vec(), values);
        assert_eq!(RleVec::from_vec(values.clone()).to_vec(), values);
    }
}

#[test]
fn rebuilt_from_its_runs() {
    let rle = RleVec::from_slice(&[0, 0, 0, 1, 1, 1, 1, 1, 1, 1, 3, 3, 123, 0, 90, 90, 99]);
    let runs: Vec<Run<i32>> =
        run_list(&rle).into_iter().map(|(value, len)| Run { len, value }).collect();
    let rebuilt = RleVec::from_runs(runs);
    assert_eq!(layout(&rebuilt), layout(&rle));
    assert_eq!(rebuilt.runs_len(), rle.runs_len());
}

#[test]
fn from_runs_joins_and_skips() {
    let rle = RleVec::from_runs(vec![
        Run { len: 2, value: 'x' },
        Run { len: 3, value: 'x' },
        Run { len: 0, value: 'y' },
        Run { len: 1, value: 'z' },
        Run { len: 0, value: 'x' },
    ]);
    assert_eq!(layout(&rle), (vec!['x', 'x', 'x', 'x', 'x', 'z'], vec![0, 5], vec![4, 5]));
    assert_eq!(run_list(&rle), vec![('x', 5), ('z', 1)]);
}

#[test]
fn index_agrees_with_to_vec() {
    let rle = RleVec::from_slice(&[4, 4, 2, 2, 2, 7, 4, 4, 4, 4, 1]);
    let values = rle.to_vec();
    for i in 0..rle.len() {
        assert_eq!(*rle.index(i), values[i]);
    }
}

#[test]
fn setting_the_same_value_changes_nothing() {
    let mut rle = RleVec::from_slice(&[4, 4, 2, 2, 2, 7, 4, 4, 4, 4, 1]);
    let before = layout(&rle);
    for i in 0..rle.len() {
        let value = *rle.index(i);
        rle.set(i, value);
        assert_eq!(rle.len(), 11);
        assert_eq!(rle.runs_len(), 5);
        assert_eq!(layout(&rle), before);
    }
}

#[test]
fn remove_undoes_insert() {
    let sources: Vec<Vec<u8>> =
        vec![vec![], vec![1, 2], vec![1, 1, 2, 2, 2, 3], vec![0, 1, 0, 1, 1, 0], vec![3, 3, 1]];
    for source in sources {
        let mut rle = RleVec::from_slice(&source);
        let before = layout(&rle);
        for at in 0..=source.len() {
            for value in 0..4u8 {
                rle.insert(at, value);
                assert_eq!(rle.len(), source.len() + 1);
                assert_eq!(rle.remove(at), value);
                assert_eq!(layout(&rle), before);
            }
        }
    }
}

#[test]
fn remove_after_insert_inside_a_single_run() {
    let mut rle = RleVec::from_slice(&[1, 1]);
    rle.insert(1, 2);
    assert_eq!(layout(&rle), (vec![1, 2, 1], vec![0, 1, 2], vec![0, 1, 2]));
    assert_eq!(rle.remove(1), 2);
    assert_eq!(rle.to_vec(), vec![1, 1]);
    assert_eq!(rle.len(), 2);
    // with only two runs left they are not joined
    assert_eq!(rle.runs_len(), 2);
    assert_eq!(rle.starts(), vec![0, 1]);
    assert_eq!(rle.ends(), vec![0, 1]);
    // the vector goes on working
    assert_eq!(*rle.index(0), 1);
    assert_eq!(*rle.index(1), 1);
    rle.push(1);
    assert_eq!(layout(&rle), (vec![1, 1, 1], vec![0, 1], vec![0, 2]));
    rle.set(0, 3);
    assert_eq!(layout(&rle), (vec![3, 1, 1], vec![0, 1], vec![0, 2]));
}

#[test]
fn remove_joins_the_neighbours() {
    let mut rle = RleVec::from_slice(&[1, 1, 2, 1, 4]);
    assert_eq!(rle.runs_len(), 4);
    assert_eq!(rle.remove(2), 2);
    assert_eq!(layout(&rle), (vec![1, 1, 1, 4], vec![0, 3], vec![2, 3]));

    let mut rle = RleVec::from_slice(&[4, 1, 2, 1, 1]);
    assert_eq!(rle.remove(2), 2);
    assert_eq!(layout(&rle), (vec![4, 1, 1, 1], vec![0, 1], vec![0, 3]));
}

#[test]
fn remove_keeps_differing_neighbours_apart() {
    let mut rle = RleVec::from_slice(&[1, 1, 2, 3, 3, 4]);
    assert_eq!(rle.remove(2), 2);
    assert_eq!(layout(&rle), (vec![1, 1, 3, 3, 4], vec![0, 2, 4], vec![1, 3, 4]));
}

#[test]
fn remove_at_the_front() {
    let mut rle = RleVec::from_slice(&[5, 6, 6]);
    assert_eq!(rle.remove(0), 5);
    assert_eq!(layout(&rle), (vec![6, 6], vec![0], vec![1]));
    assert_eq!(rle.remove(0), 6);
    assert_eq!(layout(&rle), (vec![6], vec![0], vec![0]));
    assert_eq!(rle.remove(0), 6);
    assert!(rle.is_empty());
    assert_eq!(rle.runs_len(), 0);
}

#[test]
fn remove_at_the_back() {
    let mut rle = RleVec::from_slice(&[1, 2, 3, 4]);
    assert_eq!(rle.remove(3), 4);
    assert_eq!(layout(&rle), (vec![1, 2, 3], vec![0, 1, 2], vec![0, 1, 2]));
    let mut rle = RleVec::from_slice(&[1, 2, 2]);
    assert_eq!(rle.remove(2), 2);
    assert_eq!(layout(&rle), (vec![1, 2], vec![0, 1], vec![0, 1]));
}

#[test]
fn remove_inside_a_run() {
    let mut rle = RleVec::from_slice(&[1, 2, 2, 2, 3]);
    assert_eq!(rle.remove(2), 2);
    assert_eq!(layout(&rle), (vec![1, 2, 2, 3], vec![0, 1, 3], vec![0, 2, 3]));
    assert_eq!(rle.remove(1), 2);
    assert_eq!(layout(&rle), (vec![1, 2, 3], vec![0, 1, 2], vec![0, 1, 2]));
}

#[test]
fn set_on_a_run_of_one() {
    // joins both neighbours
    let mut rle = RleVec::from_slice(&[1, 1, 2, 1, 3]);
    rle.set(2, 1);
    assert_eq!(layout(&rle), (vec![1, 1, 1, 1, 3], vec![0, 4], vec![3, 4]));
    // joins the run before it, at the very end
    let mut rle = RleVec::from_slice(&[1, 1, 2]);
    rle.set(2, 1);
    assert_eq!(layout(&rle), (vec![1, 1, 1], vec![0], vec![2]));
    // joins the run before it only
    let mut rle = RleVec::from_slice(&[1, 1, 2, 3]);
    rle.set(2, 1);
    assert_eq!(layout(&rle), (vec![1, 1, 1, 3], vec![0, 3], vec![2, 3]));
    // joins the run after it only
    let mut rle = RleVec::from_slice(&[1, 2, 3, 3]);
    rle.set(1, 3);
    assert_eq!(layout(&rle), (vec![1, 3, 3, 3], vec![0, 1], vec![0, 3]));
    let mut rle = RleVec::from_slice(&[2, 3, 3]);
    rle.set(0, 3);
    assert_eq!(layout(&rle), (vec![3, 3, 3], vec![0], vec![2]));
    // takes the value in place
    let mut rle = RleVec::from_slice(&[1, 2, 3]);
    rle.set(1, 9);
    assert_eq!(layout(&rle), (vec![1, 9, 3], vec![0, 1, 2], vec![0, 1, 2]));
}

#[test]
fn set_on_a_longer_run() {
    // first element, joining the run before
    let mut rle = RleVec::from_slice(&[1, 2, 2, 2]);
    rle.set(1, 1);
    assert_eq!(layout(&rle), (vec![1, 1, 2, 2], vec![0, 2], vec![1, 3]));
    // first element, a run of its own
    let mut rle = RleVec::from_slice(&[1, 2, 2, 2]);
    rle.set(1, 7);
    assert_eq!(layout(&rle), (vec![1, 7, 2, 2], vec![0, 1, 2], vec![0, 1, 3]));
    let mut rle = RleVec::from_slice(&[2, 2, 2]);
    rle.set(0, 7);
    assert_eq!(layout(&rle), (vec![7, 2, 2], vec![0, 1], vec![0, 2]));
    // last element, joining the run after
    let mut rle = RleVec::from_slice(&[2, 2, 2, 3]);
    rle.set(2, 3);
    assert_eq!(layout(&rle), (vec![2, 2, 3, 3], vec![0, 2], vec![1, 3]));
    // last element, a run of its own
    let mut rle = RleVec::from_slice(&[2, 2, 2, 3]);
    rle.set(2, 7);
    assert_eq!(layout(&rle), (vec![2, 2, 7, 3], vec![0, 2, 3], vec![1, 2, 3]));
    let mut rle = RleVec::from_slice(&[2, 2, 2]);
    rle.set(2, 7);
    assert_eq!(layout(&rle), (vec![2, 2, 7], vec![0, 2], vec![1, 2]));
    // inside: three runs
    let mut rle = RleVec::from_slice(&[1, 2, 2, 2, 2, 3]);
    rle.set(2, 7);
    assert_eq!(
        layout(&rle),
        (vec![1, 2, 7, 2, 2, 3], vec![0, 1, 2, 3, 5], vec![0, 1, 2, 4, 5])
    );
}

#[test]
fn insert_cases() {
    // at the end: a push
    let mut rle = RleVec::from_slice(&[1, 1]);
    rle.insert(2, 1);
    assert_eq!(layout(&rle), (vec![1, 1, 1], vec![0], vec![2]));
    rle.insert(3, 2);
    assert_eq!(layout(&rle), (vec![1, 1, 1, 2], vec![0, 3], vec![2, 3]));
    // into an empty vector
    let mut rle = RleVec::new();
    rle.insert(0, 9);
    assert_eq!(layout(&rle), (vec![9], vec![0], vec![0]));
    // the value of the run it lands in
    let mut rle = RleVec::from_slice(&[1, 2, 2, 3]);
    rle.insert(1, 2);
    assert_eq!(layout(&rle), (vec![1, 2, 2, 2, 3], vec![0, 1, 4], vec![0, 3, 4]));
    rle.insert(3, 2);
    assert_eq!(layout(&rle), (vec![1, 2, 2, 2, 2, 3], vec![0, 1, 5], vec![0, 4, 5]));
    // at the start of a run, joining the run before
    let mut rle = RleVec::from_slice(&[1, 2, 2, 3]);
    rle.insert(1, 1);
    assert_eq!(layout(&rle), (vec![1, 1, 2, 2, 3], vec![0, 2, 4], vec![1, 3, 4]));
    // at the start of a run, a run of its own
    let mut rle = RleVec::from_slice(&[1, 2, 2, 3]);
    rle.insert(1, 7);
    assert_eq!(layout(&rle), (vec![1, 7, 2, 2, 3], vec![0, 1, 2, 4], vec![0, 1, 3, 4]));
    let mut rle = RleVec::from_slice(&[2, 2]);
    rle.insert(0, 7);
    assert_eq!(layout(&rle), (vec![7, 2, 2], vec![0, 1], vec![0, 2]));
    // inside a run, also before its last element
    let mut rle = RleVec::from_slice(&[1, 2, 2, 3]);
    rle.insert(2, 7);
    assert_eq!(
        layout(&rle),
        (vec![1, 2, 7, 2, 3], vec![0, 1, 2, 3, 4], vec![0, 1, 2, 3, 4])
    );
    let mut rle = RleVec::from_slice(&[2, 2, 2]);
    rle.insert(2, 3);
    assert_eq!(layout(&rle), (vec![2, 2, 3, 2], vec![0, 2, 3], vec![1, 2, 3]));
}

#[test]
fn starts_follow_ends() {
    let rle = RleVec::from_slice(&[9, 9, 8, 7, 7, 7, 9, 0, 0]);
    let starts = rle.starts();
    let ends = rle.ends();
    assert_eq!(starts, vec![0, 2, 3, 6, 7]);
    assert_eq!(ends, vec![1, 2, 5, 6, 8]);
    assert_eq!(starts.len(), rle.runs_len());
    assert_eq!(starts[0], 0);
    for k in 1..starts.len() {
        assert_eq!(starts[k], ends[k - 1] + 1);
    }
    assert_eq!(ends[ends.len() - 1] + 1, rle.len());
}

#[test]
fn cursor_walks_every_element() {
    let values = vec![3, 3, 3, 1, 2, 2];
    let rle = RleVec::from_slice(&values);
    let mut cursor = rle.iter();
    for expected in &values {
        assert_eq!(cursor.next(), Some(expected));
    }
    assert_eq!(cursor.next(), None);
    assert_eq!(cursor.next(), None);
    assert_eq!(cursor.nth(0), None);
}

#[test]
fn nth_lands_where_index_does() {
    let values = (0..100).collect::<Vec<usize>>();
    let rle = RleVec::from_slice(&values);
    for first in 0..=100usize {
        for second in 0..=(100 - first) {
            let mut cursor = rle.iter();
            if first < 100 {
                assert_eq!(cursor.nth(first), Some(rle.index(first)));
            } else {
                assert_eq!(cursor.nth(first), None);
            }
            let at = first + 1 + second;
            if at < 100 {
                assert_eq!(cursor.nth(second), Some(rle.index(at)));
                if at + 1 < 100 {
                    assert_eq!(cursor.next(), Some(rle.index(at + 1)));
                }
            } else {
                assert_eq!(cursor.nth(second), None);
                assert_eq!(cursor.next(), None);
            }
        }
    }
    let runs = RleVec::from_slice(&[7, 7, 7, 8, 8, 9]);
    for skip in 0..6usize {
        assert_eq!(runs.iter().nth(skip), Some(runs.index(skip)));
    }
    assert_eq!(runs.iter().nth(6), None);
    assert_eq!(runs.iter().nth(usize::MAX), None);
    let mut cursor = runs.iter();
    assert_eq!(cursor.nth(1), Some(&7));
    assert_eq!(cursor.nth(usize::MAX), None);
    assert_eq!(cursor.next(), None);
}

#[test]
fn runs_cursor_gives_value_and_length() {
    let rle = RleVec::from_slice(&[1, 1, 1, 1, 2, 2, 3]);
    let mut cursor = rle.runs();
    assert_eq!(cursor.next(), Some(Run { len: 4, value: &1 }));
    assert_eq!(cursor.next(), Some(Run { len: 2, value: &2 }));
    assert_eq!(cursor.next(), Some(Run { len: 1, value: &3 }));
    assert_eq!(cursor.next(), None);
    assert_eq!(cursor.next(), None);
}

#[test]
fn greatest_and_least_of_what_is_left() {
    let rle = RleVec::from_slice(&[0, 0, 0, 1, 1, 1, 1, 1, 1, 1, 3, 3, 123, 0, 90, 90, 99]);
    assert_eq!(rle.iter().max(), Some(&123));
    assert_eq!(rle.iter().min(), Some(&0));
    let mut cursor = rle.iter();
    cursor.nth(12);
    assert_eq!(cursor.max(), Some(&99));
    let mut cursor = rle.iter();
    cursor.nth(12);
    assert_eq!(cursor.min(), Some(&0));
    let mut cursor = rle.iter();
    cursor.nth(13);
    assert_eq!(cursor.min(), Some(&90));
    // in the middle of a run the rest of the run still counts
    let mut cursor = rle.iter();
    cursor.nth(14);
    assert_eq!(cursor.min(), Some(&90));
    let mut cursor = rle.iter();
    cursor.nth(16);
    assert_eq!(cursor.max(), None);
}

#[test]
fn of_equals_max_gives_the_last_and_min_the_first() {
    let rle = RleVec::from_slice(&[5, 1, 5, 1, 2]);
    let greatest = rle.iter().max().unwrap();
    assert!(std::ptr::eq(greatest, rle.index(2)));
    assert!(!std::ptr::eq(greatest, rle.index(0)));
    let least = rle.iter().min().unwrap();
    assert!(std::ptr::eq(least, rle.index(1)));
    assert!(!std::ptr::eq(least, rle.index(3)));
}

#[test]
fn clone_keeps_elements_and_runs() {
    let rle = RleVec::from_slice(&["a", "a", "b", "a"]);
    let mut copy = rle.clone();
    assert_eq!(layout(&copy), layout(&rle));
    copy.set(0, "c");
    assert_eq!(rle.to_vec(), vec!["a", "a", "b", "a"]);
    assert_eq!(copy.to_vec(), vec!["c", "a", "b", "a"]);
}

#[test]
fn values_that_are_not_copy() {
    let mut rle: RleVec<String> = RleVec::new();
    rle.push("x".to_string());
    rle.push("x".to_string());
    rle.push_n(2, "y".to_string());
    rle.insert(1, "z".to_string());
    assert_eq!(rle.remove(0), "x");
    rle.set(2, "z".to_string());
    assert_eq!(rle.to_vec(), vec!["z", "x", "z", "y"]);
    assert_eq!(rle.runs_len(), 4);
}

#[test]
fn reading_bytes() {
    let rle = RleVec::from_slice(&[7u8, 7, 7, 9, 9, 1]);
    let mut cursor = rle.iter();
    let mut buf = [0u8; 4];
    assert_eq!(cursor.read(&mut buf), 4);
    assert_eq!(buf, [7, 7, 7, 9]);
    let mut buf = [5u8; 4];
    assert_eq!(cursor.read(&mut buf), 2);
    assert_eq!(buf, [9, 1, 5, 5]);
    assert_eq!(cursor.read(&mut buf), 0);
    assert_eq!(buf, [9, 1, 5, 5]);
    let mut none: [u8; 0] = [];
    assert_eq!(rle.iter().read(&mut none), 0);
    assert_eq!(RleVec::<u8>::new().iter().read(&mut buf), 0);
}
