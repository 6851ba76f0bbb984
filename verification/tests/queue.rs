use revwalk::objects::Commit;
use revwalk::objects::Id;
use revwalk::objects::WithId;
use revwalk::priority_queue::PriorityQueue;
use revwalk::priority_queue::Rank;
use revwalk::read::Reader;
use revwalk::revision::CommitDate;

fn commit(name: &str, time: Option<u64>) -> WithId<Commit> {
    let body = match time {
        Some(seconds) => format!("tree {}\ncommitter A <a@b> {} +0000\n\nmessage\n", name, seconds),
        None => format!("tree {}\n\nmessage\n", name),
    };
    WithId::new(Id::from(name), Commit::decode(Reader::new(body.into_bytes())))
}

fn pop_name(queue: &mut PriorityQueue<WithId<Commit>, Option<u64>, CommitDate>) -> Option<String> {
    queue.pop().map(|found| String::from(found.id.as_str()))
}

#[test]
fn pop_on_empty_queue_is_none() {
    let mut queue = PriorityQueue::new(CommitDate);
    assert_eq!(queue.len(), 0);
    assert!(queue.pop().is_none());
}

#[test]
fn pop_returns_the_highest_rank_first() {
    let mut queue = PriorityQueue::new(CommitDate);
    queue.push(commit("c", Some(30)));
    queue.push(commit("a", Some(10)));
    queue.push(commit("e", Some(50)));
    queue.push(commit("b", Some(20)));
    assert_eq!(queue.len(), 4);
    assert_eq!(pop_name(&mut queue), Some(String::from("e")));
    assert_eq!(pop_name(&mut queue), Some(String::from("c")));
    assert_eq!(pop_name(&mut queue), Some(String::from("b")));
    assert_eq!(pop_name(&mut queue), Some(String::from("a")));
    assert_eq!(pop_name(&mut queue), None);
}

#[test]
fn equal_ranks_leave_in_the_order_they_came() {
    let mut queue = PriorityQueue::new(CommitDate);
    queue.push(commit("x1", Some(5)));
    queue.push(commit("x2", Some(5)));
    queue.push(commit("y", Some(1)));
    queue.push(commit("x3", Some(5)));
    assert_eq!(pop_name(&mut queue), Some(String::from("x1")));
    assert_eq!(pop_name(&mut queue), Some(String::from("x2")));
    assert_eq!(pop_name(&mut queue), Some(String::from("x3")));
    assert_eq!(pop_name(&mut queue), Some(String::from("y")));
}

#[test]
fn missing_time_ranks_below_every_time() {
    let mut queue = PriorityQueue::new(CommitDate);
    queue.push(commit("n1", None));
    queue.push(commit("zero", Some(0)));
    queue.push(commit("seven", Some(7)));
    queue.push(commit("n2", None));
    assert_eq!(pop_name(&mut queue), Some(String::from("seven")));
    assert_eq!(pop_name(&mut queue), Some(String::from("zero")));
    assert_eq!(pop_name(&mut queue), Some(String::from("n1")));
    assert_eq!(pop_name(&mut queue), Some(String::from("n2")));
    assert_eq!(pop_name(&mut queue), None);
}

#[test]
fn push_after_pop_keeps_the_order() {
    let mut queue = PriorityQueue::new(CommitDate);
    queue.push(commit("late", Some(300)));
    queue.push(commit("early", Some(100)));
    assert_eq!(pop_name(&mut queue), Some(String::from("late")));
    queue.push(commit("mid", Some(200)));
    assert_eq!(pop_name(&mut queue), Some(String::from("mid")));
    assert_eq!(pop_name(&mut queue), Some(String::from("early")));
}

#[test]
fn outranks_compares_optional_numbers() {
    assert!(Some(1u64).outranks(&Some(0u64)));
    assert!(!Some(1u64).outranks(&Some(1u64)));
    assert!(Some(0u64).outranks(&None));
    assert!(!None::<u64>.outranks(&Some(0u64)));
    assert!(!None::<u64>.outranks(&None));
    assert!(2u64.outranks(&1u64));
    assert!(!1u64.outranks(&2u64));
}
