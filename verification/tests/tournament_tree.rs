use stream_merge::tournament_tree::{Mergeable, Tree};

struct InputStream<T: Iterator<Item = u64>> {
    iterator: std::iter::Peekable<T>,
    current_value: Option<u64>,
}

impl<T: Iterator<Item = u64>> InputStream<T> {
    fn new(iterator: T) -> InputStream<T> {
        InputStream {
            iterator: iterator.peekable(),
            current_value: None,
        }
    }
}

impl<T: Iterator<Item = u64>> Mergeable for InputStream<T> {
    type Data = <T>::Item;

    fn pop(&mut self) -> Option<&<T>::Item> {
        self.current_value = self.iterator.next();
        self.current_value.as_ref()
    }

    fn peek_timestamp(&mut self) -> u64 {
        *self.iterator.peek().unwrap_or(&std::u64::MAX)
    }
}

#[test]
fn produces_all_output() {
    let inputs = vec![InputStream::new(vec![1, 1, 2, 6, 8, 8, 9].into_iter())];

    let mut tree = Tree::new(inputs);
    let expected_outputs = vec![1, 1, 2, 6, 8, 8, 9];
    for expected in expected_outputs {
        if let Some(popped) = tree.pop() {
            assert_eq!(*popped, expected);
        } else {
            panic!("Tree returned empty. Expected {}", expected);
        }
    }
    assert!(tree.pop().is_none(), "Tree should be empty but isn't");
}

#[test]
fn produces_all_ordered_output_2() {
    let inputs = vec![
        InputStream::new(vec![2, 4, 5, 7].into_iter()),
        InputStream::new(vec![1, 1, 2, 6, 8, 8, 9].into_iter()),
    ];

    let mut tree = Tree::new(inputs);
    let expected_outputs = vec![1, 1, 2, 2, 4, 5, 6, 7, 8, 8, 9];
    for expected in expected_outputs {
        if let Some(popped) = tree.pop() {
            println!("popped {}", popped);
            assert_eq!(*popped, expected);
        } else {
            panic!("Tree returned empty. Expected {}", expected);
        }
    }
    assert!(tree.pop().is_none(), "Tree should be empty but isn't");
}

#[test]
fn produces_all_ordered_output_3() {
    let inputs = vec![
        InputStream::new(vec![4, 5, 7].into_iter()),
        InputStream::new(vec![2, 3, 5, 7].into_iter()),
        InputStream::new(vec![1, 1, 2, 6, 8, 8, 9].into_iter()),
    ];

    let mut tree = Tree::new(inputs);
    let expected_outputs = vec![1, 1, 2, 2, 3, 4, 5, 5, 6, 7, 7, 8, 8, 9];
    for expected in expected_outputs {
        if let Some(popped) = tree.pop() {
            println!("popped {}", popped);
            assert_eq!(*popped, expected);
        } else {
            panic!("Tree returned empty. Expected {}", expected);
        }
    }
    assert!(tree.pop().is_none(), "Tree should be empty but isn't");
}

#[test]
fn produces_all_ordered_output_5() {
    let inputs = vec![
        InputStream::new(vec![4, 5, 7].into_iter()),
        InputStream::new(vec![4, 5, 7].into_iter()),
        InputStream::new(vec![2, 3, 5, 7].into_iter()),
        InputStream::new(vec![4, 5, 7].into_iter()),
        InputStream::new(vec![1, 1, 2, 6, 8, 8, 9].into_iter()),
    ];

    let mut tree = Tree::new(inputs);
    let expected_outputs = vec![1, 1, 2, 2, 3, 4, 4, 4, 5, 5, 5, 5, 6, 7, 7, 7, 7, 8, 8, 9];
    for expected in expected_outputs {
        if let Some(popped) = tree.pop() {
            println!("popped {}", popped);
            assert_eq!(*popped, expected);
        } else {
            panic!("Tree returned empty. Expected {}", expected);
        }
    }
    assert!(tree.pop().is_none(), "Tree should be empty but isn't");
}
