use algo::circular::CircularBuffer;
use algo::randomized_queue::RandomizedQueue;
use algo::union_find::UnionFind;

#[test]
fn union_find_test() {
    let mut uf = UnionFind::new(10);
    uf.union(4, 3);
    uf.union(3, 8);
    uf.union(6, 5);
    uf.union(9, 4);
    uf.union(2, 1);
    assert!(uf.connected(8, 9));
    assert!(!uf.connected(5, 0));
    uf.union(5, 0);
    uf.union(7, 2);
    uf.union(6, 1);
    println!("{}", uf.connected(0, 7));
}

#[test]
fn union_find_merges_whole_sets() {
    let mut uf = UnionFind::new(6);
    assert!(uf.connected(3, 3));
    assert!(!uf.connected(0, 1));
    uf.union(0, 1);
    uf.union(2, 3);
    assert!(!uf.connected(1, 2));
    uf.union(1, 3);
    assert!(uf.connected(0, 2));
    assert!(uf.connected(3, 0));
    assert!(!uf.connected(4, 0));
    uf.union(0, 0);
    assert!(!uf.connected(5, 4));
}

#[test]
fn randomized_queue_test() {
    let mut r: RandomizedQueue<String> = RandomizedQueue::new();
    for x in ["A", "B", "C", "D", "E", "F", "G", "H", "I"] {
        r.enqueue(x.to_string());
    }
    assert_eq!(r.size(), 9);

    let s = r.sample();
    assert_ne!(s, None);
    assert_eq!(r.size(), 9);
    println!("{:?}", s);

    while let Some(s) = r.dequeue() {
        println!("{s}");
    }
    let empty = r.is_empty();
    assert!(empty);
}

#[test]
fn randomized_queue_returns_each_item_once() {
    let mut r: RandomizedQueue<u32> = RandomizedQueue::new();
    assert!(r.is_empty());
    assert!(r.dequeue().is_none());
    assert!(r.sample().is_none());
    for x in 0..20 {
        r.enqueue(x);
    }
    let mut out = Vec::new();
    while let Some(x) = r.dequeue() {
        out.push(x);
    }
    out.sort();
    assert_eq!(out, (0..20).collect::<Vec<u32>>());
}

#[test]
fn test_avg() {
    let mut c = CircularBuffer::new(10);
    // load with ten items
    for _ in 0..10 {
        c.enqueue(10);
    }
    let mut sum = 100;
    let mut avg;

    // now dequeue and enqueue as each item arrives
    let d = [2, 10, 10, 15, 15, 2, 0, 2, 2, 2, 0, 0, 0, 0, 0];
    for i in d {
        if let Some(item) = c.dequeue() {
            sum -= item;
        }
        c.enqueue(i);
        sum += i;
        avg = sum / 10;
        println!("sum:{sum}, avg:{avg}, below:{}", avg < 5);
    }
}

#[test]
fn test_time() {
    let mut c = CircularBuffer::new(3);
    // load with items
    for i in 0..3 {
        c.enqueue(i * 60);
    }
    let mut dif = 2;

    // now dequeue and enqueue as each item arrives
    let d = [
        4 * 60,
        5 * 60,
        6 * 60,
        7 * 60,
        8 * 60,
        9 * 60,
        10 * 60,
        10 * 60,
        11 * 60,
        12 * 60,
        13 * 60,
    ];
    for i in d {
        c.dequeue();
        c.enqueue(i);

        if let Some(item) = c.peek_oldest() {
            dif = i - item;
        }
        println!("dif:{dif}, below:{}", dif < 120);
    }
}

#[test]
fn circular_test() {
    let mut c = CircularBuffer::new(3);
    c.enqueue(1);
    c.enqueue(2);
    c.enqueue(3);
    println!("{:?}", c);

    let d = c.dequeue();
    println!("{:?}", d);
    println!("{:?}", c);
    c.enqueue(4);
    let d = c.dequeue();
    println!("{:?}", d);
    println!("{:?}", c);

    let d = c.peek_newest();
    println!("New: {:?}", d);

    c.enqueue(5);
    let d = c.dequeue();
    println!("{:?}", d);
    println!("{:?}", c);
    c.enqueue(6);
    println!("{:?}", c);

    let d = c.peek_newest();
    println!("New: {:?}", d);

    let d = c.peek_oldest();
    println!("Old: {:?}", d);

    let d = c.dequeue();
    println!("{:?}", d);
    println!("{:?}", c);
    let d = c.dequeue();
    println!("{:?}", d);
    println!("{:?}", c);
    let d = c.dequeue();
    println!("{:?}", d);
    println!("{:?}", c);

    let d = c.dequeue();
    println!("{:?}", d);
    println!("{:?}", c);
}

#[test]
fn circular_buffer_keeps_fifo_order() {
    let mut c = CircularBuffer::new(2);
    assert_eq!(*c.peek_oldest(), None);
    assert_eq!(*c.peek_newest(), None);
    c.enqueue(1);
    c.enqueue(2);
    assert_eq!(*c.peek_oldest(), Some(1));
    assert_eq!(*c.peek_newest(), Some(2));
    assert_eq!(c.dequeue(), Some(1));
    c.enqueue(3);
    assert_eq!(*c.peek_newest(), Some(3));
    assert_eq!(c.dequeue(), Some(2));
    assert_eq!(c.dequeue(), Some(3));
    assert_eq!(c.dequeue(), None);
    assert_eq!(*c.peek_oldest(), None);
}
