use mini_lang::eval::namespace::NameSpace;
use mini_lang::ScopeError;

#[test]
fn a_new_table_has_the_outermost_frame_open() {
    let mut ns: NameSpace<i32> = NameSpace::new();
    assert_eq!(ns.get(0, 0), Err(ScopeError::IllegalId));
    assert_eq!(ns.get(1, 0), Err(ScopeError::UndefinedDepth));
    assert_eq!(ns.register(5), 0);
    assert_eq!(ns.get(0, 0), Ok(&5));
}

#[test]
fn register_counts_within_the_innermost_frame() {
    let mut ns: NameSpace<i32> = NameSpace::new();
    assert_eq!(ns.register(10), 0);
    assert_eq!(ns.register(11), 1);
    assert_eq!(ns.chunk(), 1);
    assert_eq!(ns.register(20), 0);
    assert_eq!(ns.register(21), 1);
    assert_eq!(ns.chunk(), 2);
    assert_eq!(ns.register(30), 0);
    assert_eq!(ns.get(0, 1), Ok(&11));
    assert_eq!(ns.get(1, 1), Ok(&21));
    assert_eq!(ns.get(2, 0), Ok(&30));
}

#[test]
fn an_id_beyond_its_frame_is_illegal() {
    let mut ns: NameSpace<i32> = NameSpace::new();
    ns.register(10);
    ns.chunk();
    ns.register(20);
    assert_eq!(ns.get(0, 1), Err(ScopeError::IllegalId));
    assert_eq!(ns.get(1, 1), Err(ScopeError::IllegalId));
    assert_eq!(ns.get(0, usize::MAX), Err(ScopeError::IllegalId));
    assert_eq!(ns.get(2, 0), Err(ScopeError::UndefinedDepth));
}

#[test]
fn closing_a_frame_restores_the_slots_before_it() {
    let mut ns: NameSpace<i32> = NameSpace::new();
    ns.register(1);
    let before = ns.clone();
    let depth = ns.chunk();
    ns.register(2);
    ns.register(3);
    let inner = ns.chunk();
    assert_eq!((depth, inner), (1, 2));
    ns.register(4);
    ns.back();
    assert_eq!(ns.register(5), 2);
    ns.back();
    assert_eq!(ns, before);
    assert_eq!(ns.register(6), 1);
}

#[test]
fn closing_the_outermost_frame_leaves_nothing() {
    let mut ns: NameSpace<i32> = NameSpace::new();
    ns.register(1);
    ns.back();
    assert_eq!(ns.get(0, 0), Err(ScopeError::UndefinedDepth));
    ns.back();
    assert_eq!(ns.chunk(), 0);
    assert_eq!(ns.register(7), 0);
    assert_eq!(ns.get(0, 0), Ok(&7));
}

#[test]
fn a_taken_slot_is_empty_until_it_is_returned() {
    let mut ns: NameSpace<String> = NameSpace::new();
    ns.register("a".to_string());
    ns.register("b".to_string());
    assert_eq!(ns.borrow(0, 1), Ok("b".to_string()));
    assert_eq!(ns.get(0, 1), Err(ScopeError::SlotEmpty));
    assert_eq!(ns.borrow(0, 1), Err(ScopeError::SlotEmpty));
    assert_eq!(ns.get(0, 0), Ok(&"a".to_string()));
    assert_eq!(ns.ret(0, 1, "c".to_string()), Ok(()));
    assert_eq!(ns.get(0, 1), Ok(&"c".to_string()));
}

#[test]
fn a_slot_that_holds_a_value_takes_no_other() {
    let mut ns: NameSpace<i32> = NameSpace::new();
    ns.register(1);
    assert_eq!(ns.ret(0, 0, 2), Err(ScopeError::SlotNotEmpty));
    assert_eq!(ns.get(0, 0), Ok(&1));
    assert_eq!(ns.ret(0, 1, 2), Err(ScopeError::IllegalId));
    assert_eq!(ns.ret(3, 0, 2), Err(ScopeError::UndefinedDepth));
    assert_eq!(ns.borrow(0, 1), Err(ScopeError::IllegalId));
    assert_eq!(ns.borrow(3, 0), Err(ScopeError::UndefinedDepth));
}
