use std::cell::RefCell;
use std::rc::Rc;
use teach_tech_core::handlers::{Handler, HandlerRegistry};

type Log = Rc<RefCell<Vec<(u32, String, Vec<u8>)>>>;

struct Recorder {
    id: u32,
    log: Log,
}

impl Handler for Recorder {
    fn handle(&mut self, tag: &str, payload: &[u8]) {
        self.log.borrow_mut().push((self.id, tag.to_string(), payload.to_vec()));
    }
}

#[test]
fn two_handlers_called_once_in_order() {
    let log: Log = Rc::new(RefCell::new(Vec::new()));
    let mut r = HandlerRegistry::new();
    r.register(Recorder { id: 1, log: log.clone() });
    r.register(Recorder { id: 2, log: log.clone() });
    assert_eq!(r.len(), 2);
    r.dispatch("v1", &[4, 5]);
    assert_eq!(
        *log.borrow(),
        vec![(1, "v1".to_string(), vec![4, 5]), (2, "v1".to_string(), vec![4, 5])]
    );
}

#[test]
fn dispatch_without_handlers_does_nothing() {
    let mut r: HandlerRegistry<Recorder> = HandlerRegistry::new();
    assert_eq!(r.len(), 0);
    r.dispatch("v1", b"x");
}
