use undo::{Command, MergeId, Error, Group, GroupError, Record, Signal};

#[derive(Debug, Default)]
struct Counter {
    clean: u32,
    dirty: u32,
}

impl Signal for Counter {
    fn on_clean(&mut self) {
        self.clean += 1;
    }

    fn on_dirty(&mut self) {
        self.dirty += 1;
    }
}

#[derive(Debug)]
struct Add(i64);

#[derive(Debug)]
struct Fail;

impl MergeId for Fail {}

impl Command<i64, ()> for Fail {
    fn redo(&mut self, _receiver: &mut i64) -> Result<(), ()> {
        Err(())
    }

    fn undo(&mut self, _receiver: &mut i64) -> Result<(), ()> {
        Err(())
    }

    fn id(&self) -> Option<u32> {
        None
    }
}

impl MergeId for Add {}

impl Command<i64, ()> for Add {
    fn redo(&mut self, receiver: &mut i64) -> Result<(), ()> {
        *receiver += self.0;
        Ok(())
    }

    fn undo(&mut self, receiver: &mut i64) -> Result<(), ()> {
        *receiver -= self.0;
        Ok(())
    }

    fn id(&self) -> Option<u32> {
        None
    }
}

#[test]
fn group_dirty_member_then_removed() {
    let mut g: Group<Add, Counter> = Group::new(Counter::default());
    let h1 = g.add(Record::new(Counter::default()));
    let h2 = g.add(Record::new(Counter::default()));
    assert_ne!(h1, h2);
    assert!(g.is_clean());

    let mut x: i64 = 0;
    g.set_active(h1).unwrap();
    g.push(&mut x, Add(5)).unwrap().unwrap();
    assert!(g.is_clean());
    g.undo(&mut x).unwrap().unwrap();
    assert_eq!(x, 0);
    assert!(g.is_dirty());
    assert_eq!(g.signal().dirty, 1);

    let removed = g.remove(h1).unwrap();
    assert!(removed.is_dirty());
    assert!(g.is_clean());
    assert_eq!(g.signal().clean, 1);
    assert_eq!(g.set_active(h1), Err(GroupError::NotFound));
    assert_eq!(g.set_active(h2), Ok(()));
}

#[test]
fn group_without_active_member() {
    let mut g: Group<Add, Counter> = Group::new(Counter::default());
    let mut x: i64 = 0;
    assert!(matches!(g.push(&mut x, Add(1)), Err(GroupError::NoActiveHistory)));
    assert!(matches!(g.redo(&mut x), Err(GroupError::NoActiveHistory)));
    assert!(matches!(g.undo(&mut x), Err(GroupError::NoActiveHistory)));
    assert_eq!(x, 0);
    assert!(g.is_clean());
}

#[test]
fn group_unknown_id() {
    let mut g: Group<Add, Counter> = Group::new(Counter::default());
    assert_eq!(g.set_active(0), Err(GroupError::NotFound));
    assert!(matches!(g.remove(3), Err(GroupError::NotFound)));
}

#[test]
fn group_forwards_to_active_only() {
    let mut g: Group<Add, Counter> = Group::new(Counter::default());
    let a = g.add(Record::new(Counter::default()));
    let b = g.add(Record::new(Counter::default()));
    let mut x: i64 = 0;
    let mut y: i64 = 0;
    g.set_active(a).unwrap();
    g.push(&mut x, Add(2)).unwrap().unwrap();
    g.set_active(b).unwrap();
    g.push(&mut y, Add(3)).unwrap().unwrap();
    g.push(&mut y, Add(4)).unwrap().unwrap();
    g.undo(&mut y).unwrap().unwrap();
    assert_eq!((x, y), (2, 3));
    g.set_active(a).unwrap();
    g.undo(&mut x).unwrap().unwrap();
    assert_eq!((x, y), (0, 3));
    assert_eq!(g.signal().dirty, 1);
    g.redo(&mut x).unwrap().unwrap();
    assert!(g.is_dirty());
    g.set_active(b).unwrap();
    g.redo(&mut y).unwrap().unwrap();
    assert!(g.is_clean());
    assert_eq!(g.signal().clean, 1);
}

#[test]
fn group_removing_active_clears_selection() {
    let mut g: Group<Add, Counter> = Group::new(Counter::default());
    let a = g.add(Record::new(Counter::default()));
    g.set_active(a).unwrap();
    g.remove(a).unwrap();
    let mut x: i64 = 0;
    assert!(matches!(g.push(&mut x, Add(1)), Err(GroupError::NoActiveHistory)));
    let b = g.add(Record::new(Counter::default()));
    assert!(b > a);
}

#[test]
fn group_adding_dirty_member_reports_dirty() {
    let mut x: i64 = 0;
    let mut r = Record::new(Counter::default());
    r.push(&mut x, Add(1)).unwrap();
    r.undo(&mut x).unwrap();
    let mut g: Group<Add, Counter> = Group::new(Counter::default());
    g.add(r);
    assert!(g.is_dirty());
    assert_eq!(g.signal().dirty, 1);
}

#[test]
fn group_hands_back_command_error() {
    let mut g: Group<Fail, Counter> = Group::new(Counter::default());
    let a = g.add(Record::new(Counter::default()));
    g.set_active(a).unwrap();
    let mut x: i64 = 4;
    assert_eq!(g.push(&mut x, Fail), Ok(Err(Error(0, ()))));
    assert_eq!(g.undo(&mut x), Ok(Err(Error(0, ()))));
    assert_eq!(g.redo(&mut x), Ok(Err(Error(0, ()))));
    assert_eq!(x, 4);
}
