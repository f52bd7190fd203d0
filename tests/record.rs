use undo::{Command, MergeId, Error, Record, Signal, Silent};

#[derive(Debug, Default)]
struct Counter {
    clean: u32,
    dirty: u32,
}

impl Signal for Counter {
    fn on_clean(&mut self) {
        self.clean += 1;
    }

    fn on_dirty(&mut self) {
        self.dirty += 1;
    }
}

#[derive(Debug, Default)]
struct Pop(Option<u32>);

impl MergeId for Pop {}

impl Command<Vec<u32>, String> for Pop {
    fn redo(&mut self, receiver: &mut Vec<u32>) -> Result<(), String> {
        self.0 = receiver.pop();
        match self.0 {
            Some(_) => Ok(()),
            None => Err("empty".to_string()),
        }
    }

    fn undo(&mut self, receiver: &mut Vec<u32>) -> Result<(), String> {
        match self.0.take() {
            Some(v) => {
                receiver.push(v);
                Ok(())
            }
            None => Err("nothing popped".to_string()),
        }
    }

    fn id(&self) -> Option<u32> {
        None
    }
}

/// Appends a tag to a log on redo and removes it on undo, so that the order
/// of the calls shows in the receiver.
#[derive(Debug)]
struct Tag {
    name: &'static str,
    id: Option<u32>,
}

impl MergeId for Tag {}

impl Command<Vec<String>, String> for Tag {
    fn redo(&mut self, receiver: &mut Vec<String>) -> Result<(), String> {
        receiver.push(format!("+{}", self.name));
        Ok(())
    }

    fn undo(&mut self, receiver: &mut Vec<String>) -> Result<(), String> {
        receiver.push(format!("-{}", self.name));
        Ok(())
    }

    fn id(&self) -> Option<u32> {
        self.id
    }
}

/// Fails on redo or undo as told.
#[derive(Debug)]
struct Flaky {
    redo_ok: bool,
    undo_ok: bool,
}

impl MergeId for Flaky {}

impl Command<u32, &'static str> for Flaky {
    fn redo(&mut self, receiver: &mut u32) -> Result<(), &'static str> {
        if self.redo_ok {
            *receiver += 1;
            Ok(())
        } else {
            Err("redo failed")
        }
    }

    fn undo(&mut self, receiver: &mut u32) -> Result<(), &'static str> {
        if self.undo_ok {
            *receiver = receiver.wrapping_sub(1);
            Ok(())
        } else {
            Err("undo failed")
        }
    }

    fn id(&self) -> Option<u32> {
        None
    }
}

#[test]
fn pop_three_then_undo_three() {
    let mut v: Vec<u32> = (0..10).collect();
    let mut r = Record::new(Counter::default());
    for _ in 0..3 {
        r.push(&mut v, Pop::default()).unwrap();
    }
    assert_eq!(v.len(), 7);
    assert!(r.is_clean());

    r.undo(&mut v).unwrap();
    assert!(r.is_dirty());
    assert_eq!(r.signal().dirty, 1);
    r.undo(&mut v).unwrap();
    r.undo(&mut v).unwrap();
    assert_eq!(v, (0..10).collect::<Vec<u32>>());
    assert_eq!(r.signal().dirty, 1);
    assert!(r.is_dirty());

    r.push(&mut v, Pop::default()).unwrap();
    assert!(r.is_clean());
    assert_eq!(r.signal().clean, 1);
    assert_eq!(r.signal().dirty, 1);
    assert_eq!(v.len(), 9);
}

#[test]
fn clean_after_push_dirty_after_undo() {
    let mut v: Vec<u32> = (0..5).collect();
    let mut r = Record::with_capacity(4, Silent::new());
    assert!(r.is_clean());
    for _ in 0..4 {
        r.push(&mut v, Pop::default()).unwrap();
        assert!(r.is_clean());
        assert!(!r.is_dirty());
    }
    r.undo(&mut v).unwrap();
    assert!(r.is_dirty());
    r.undo(&mut v).unwrap();
    assert!(r.is_dirty());
    r.redo(&mut v).unwrap();
    assert!(r.is_dirty());
    r.redo(&mut v).unwrap();
    assert!(r.is_clean());
    assert_eq!(v, vec![0]);
}

#[test]
fn push_then_undo_all_restores_receiver() {
    let mut v: Vec<u32> = (0..6).collect();
    let mut r = Record::new(Silent::new());
    for _ in 0..6 {
        r.push(&mut v, Pop::default()).unwrap();
    }
    assert!(v.is_empty());
    for _ in 0..6 {
        r.undo(&mut v).unwrap();
    }
    assert_eq!(v, (0..6).collect::<Vec<u32>>());
    // Nothing left to undo: a further undo does nothing.
    r.undo(&mut v).unwrap();
    assert_eq!(v, (0..6).collect::<Vec<u32>>());
}

#[test]
fn push_after_undo_discards_redo_tail() {
    let mut v: Vec<u32> = (0..10).collect();
    let mut r = Record::new(Silent::new());
    for _ in 0..3 {
        r.push(&mut v, Pop::default()).unwrap();
    }
    r.undo(&mut v).unwrap();
    r.undo(&mut v).unwrap();
    assert_eq!(v.len(), 9);
    r.push(&mut v, Pop::default()).unwrap();
    assert_eq!(v.len(), 8);
    assert!(r.is_clean());
    r.redo(&mut v).unwrap();
    assert_eq!(v.len(), 8);
    r.undo(&mut v).unwrap();
    r.undo(&mut v).unwrap();
    assert_eq!(v.len(), 10);
}

#[test]
fn same_id_merges_into_one_entry() {
    let mut log: Vec<String> = Vec::new();
    let mut r = Record::new(Silent::new());
    r.push(&mut log, Tag { name: "a", id: Some(7) }).unwrap();
    r.push(&mut log, Tag { name: "b", id: Some(7) }).unwrap();
    assert_eq!(log, vec!["+a", "+b"]);

    r.undo(&mut log).unwrap();
    assert_eq!(log, vec!["+a", "+b", "-b", "-a"]);
    // One undo reverted both: nothing is left to undo.
    r.undo(&mut log).unwrap();
    assert_eq!(log.len(), 4);

    r.redo(&mut log).unwrap();
    assert_eq!(log, vec!["+a", "+b", "-b", "-a", "+a", "+b"]);
    assert!(r.is_clean());
}

#[test]
fn different_or_missing_ids_do_not_merge() {
    let mut log: Vec<String> = Vec::new();
    let mut r = Record::new(Silent::new());
    r.push(&mut log, Tag { name: "a", id: Some(1) }).unwrap();
    r.push(&mut log, Tag { name: "b", id: Some(2) }).unwrap();
    r.push(&mut log, Tag { name: "c", id: None }).unwrap();
    r.push(&mut log, Tag { name: "d", id: None }).unwrap();
    r.undo(&mut log).unwrap();
    assert_eq!(log.last().unwrap(), "-d");
    r.undo(&mut log).unwrap();
    assert_eq!(log.last().unwrap(), "-c");
    r.undo(&mut log).unwrap();
    assert_eq!(log.last().unwrap(), "-b");
    assert_eq!(log.len(), 7);
}

#[test]
fn merge_chain_of_three() {
    let mut log: Vec<String> = Vec::new();
    let mut r = Record::new(Silent::new());
    r.push(&mut log, Tag { name: "a", id: Some(3) }).unwrap();
    r.push(&mut log, Tag { name: "b", id: Some(3) }).unwrap();
    r.push(&mut log, Tag { name: "c", id: Some(3) }).unwrap();
    r.undo(&mut log).unwrap();
    assert_eq!(log, vec!["+a", "+b", "+c", "-c", "-b", "-a"]);
}

#[test]
fn signal_fires_only_on_transitions() {
    let mut v: Vec<u32> = (0..10).collect();
    let mut r = Record::new(Counter::default());
    r.push(&mut v, Pop::default()).unwrap();
    r.push(&mut v, Pop::default()).unwrap();
    assert_eq!((r.signal().clean, r.signal().dirty), (0, 0));
    r.undo(&mut v).unwrap();
    assert_eq!((r.signal().clean, r.signal().dirty), (0, 1));
    r.undo(&mut v).unwrap();
    assert_eq!((r.signal().clean, r.signal().dirty), (0, 1));
    r.redo(&mut v).unwrap();
    assert_eq!((r.signal().clean, r.signal().dirty), (0, 1));
    r.redo(&mut v).unwrap();
    assert_eq!((r.signal().clean, r.signal().dirty), (1, 1));
    r.redo(&mut v).unwrap();
    assert_eq!((r.signal().clean, r.signal().dirty), (1, 1));
}

#[test]
fn failed_push_keeps_command() {
    let mut n: u32 = 0;
    let mut r = Record::new(Silent::new());
    r.push(&mut n, Flaky { redo_ok: true, undo_ok: true }).unwrap();
    let e = r.push(&mut n, Flaky { redo_ok: false, undo_ok: true }).unwrap_err();
    assert_eq!(e, Error(1, "redo failed"));
    assert!(r.is_clean());
    assert_eq!(r.len(), 2);
    let failed = &r.entry(e.0).as_slice()[0];
    assert!(!failed.redo_ok);
    r.undo(&mut n).unwrap();
    assert_eq!(n, 0);
    r.undo(&mut n).unwrap();
    assert_eq!(n, u32::MAX);
}

#[test]
fn failed_redo_keeps_cursor() {
    let mut n: u32 = 0;
    let mut r = Record::new(Counter::default());
    r.push(&mut n, Flaky { redo_ok: false, undo_ok: true }).unwrap_err();
    r.undo(&mut n).unwrap();
    assert!(r.is_dirty());
    let e = r.redo(&mut n).unwrap_err();
    assert_eq!(e, Error(0, "redo failed"));
    assert!(r.is_dirty());
    assert_eq!(r.signal().clean, 0);
}

#[test]
fn failed_undo_moves_cursor() {
    let mut n: u32 = 0;
    let mut r = Record::new(Counter::default());
    r.push(&mut n, Flaky { redo_ok: true, undo_ok: false }).unwrap();
    let e = r.undo(&mut n).unwrap_err();
    assert_eq!(e, Error(0, "undo failed"));
    assert!(r.is_dirty());
    assert_eq!(r.signal().dirty, 0);
    assert_eq!(n, 1);
    // The cursor already moved: a second undo has nothing to do.
    r.undo(&mut n).unwrap();
    assert_eq!(n, 1);
}

#[test]
fn with_signal_replaces_listener() {
    let mut v: Vec<u32> = (0..3).collect();
    let mut r = Record::new(Counter::default());
    r.push(&mut v, Pop::default()).unwrap();
    r.undo(&mut v).unwrap();
    assert_eq!(r.signal().dirty, 1);
    let mut r = r.with_signal(Counter::default());
    assert_eq!(r.signal().dirty, 0);
    r.redo(&mut v).unwrap();
    assert_eq!(r.signal().clean, 1);
}

#[test]
fn boxed_commands_forward() {
    let mut log: Vec<String> = Vec::new();
    let mut r = Record::new(Silent::new());
    r.push(&mut log, Box::new(Tag { name: "a", id: Some(9) })).unwrap();
    r.push(&mut log, Box::new(Tag { name: "b", id: Some(9) })).unwrap();
    r.push(&mut log, Box::new(Tag { name: "c", id: None })).unwrap();
    assert_eq!(r.len(), 2);
    assert_eq!(r.entry(0).as_slice().len(), 2);
    assert_eq!(r.entry(0).as_slice()[1].name, "b");
    r.undo(&mut log).unwrap();
    r.undo(&mut log).unwrap();
    assert_eq!(log, vec!["+a", "+b", "+c", "-c", "-b", "-a"]);
}

#[test]
fn merged_undo_stops_at_first_failure() {
    let mut n: u32 = 0;
    let mut r = Record::new(Silent::new());
    r.push(&mut n, Keyed { redo_ok: true, undo_ok: true }).unwrap();
    r.push(&mut n, Keyed { redo_ok: true, undo_ok: false }).unwrap();
    assert_eq!(n, 2);
    assert_eq!(r.len(), 1);
    let e = r.undo(&mut n).unwrap_err();
    assert_eq!(e, Error(0, "undo failed"));
    // The second command failed first, so the first one was never undone.
    assert_eq!(n, 2);
    assert!(r.is_dirty());
}

/// Like `Flaky`, but with a merge id, so that two of them share an entry.
#[derive(Debug)]
struct Keyed {
    redo_ok: bool,
    undo_ok: bool,
}

impl MergeId for Keyed {}

impl Command<u32, &'static str> for Keyed {
    fn redo(&mut self, receiver: &mut u32) -> Result<(), &'static str> {
        if self.redo_ok {
            *receiver += 1;
            Ok(())
        } else {
            Err("redo failed")
        }
    }

    fn undo(&mut self, receiver: &mut u32) -> Result<(), &'static str> {
        if self.undo_ok {
            *receiver -= 1;
            Ok(())
        } else {
            Err("undo failed")
        }
    }

    fn id(&self) -> Option<u32> {
        Some(1)
    }
}

/// A command whose merge id changes once it has run.
#[derive(Debug)]
struct Live {
    id: Option<u32>,
    after: Option<u32>,
}

impl MergeId for Live {}

impl Command<u32, ()> for Live {
    fn redo(&mut self, receiver: &mut u32) -> Result<(), ()> {
        *receiver += 1;
        self.id = self.after;
        Ok(())
    }

    fn undo(&mut self, receiver: &mut u32) -> Result<(), ()> {
        *receiver -= 1;
        Ok(())
    }

    fn id(&self) -> Option<u32> {
        self.id
    }
}

#[test]
fn merged_entry_reports_first_command_id() {
    let mut log: Vec<String> = Vec::new();
    let mut r = Record::new(Silent::new());
    r.push(&mut log, Tag { name: "a", id: Some(5) }).unwrap();
    r.push(&mut log, Tag { name: "b", id: Some(5) }).unwrap();
    assert_eq!(r.len(), 1);
    assert_eq!(Command::<Vec<String>, String>::id(r.entry(0)), Some(5));
}

#[test]
fn entry_id_is_read_from_its_first_command() {
    let mut n: u32 = 0;
    let mut r = Record::new(Silent::new());
    r.push(&mut n, Live { id: None, after: Some(2) }).unwrap();
    assert_eq!(Command::<u32, ()>::id(r.entry(0)), Some(2));
    r.push(&mut n, Live { id: Some(2), after: Some(2) }).unwrap();
    assert_eq!(r.len(), 1);
    assert_eq!(r.entry(0).as_slice().len(), 2);
    r.push(&mut n, Live { id: Some(3), after: Some(3) }).unwrap();
    assert_eq!(r.len(), 2);
    assert_eq!(n, 3);
}
